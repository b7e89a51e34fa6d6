//! A binary min-heap of code-tree nodes, ordered by weight, in the usual
//! array layout.

use crate::tree::Node;
use vstd::prelude::*;

verus! {

/// The index of a slot's parent in the array layout.
pub open spec fn parent_of(i: int) -> int {
    (i - 1) / 2
}

/// Every slot weighs at least its parent: the array is a min-heap.
pub open spec fn is_min_heap(s: Seq<Node>) -> bool {
    forall|i: int|
        1 <= i < s.len() ==> s[parent_of(i)].weight <= (#[trigger] s[i]).weight
}

/// The sum of all weights.
pub open spec fn weights_sum(s: Seq<Node>) -> int
    decreases s.len(),
{
    if s.len() == 0 {
        0
    } else {
        weights_sum(s.drop_last()) + s.last().weight
    }
}

pub proof fn lemma_weights_sum_nonneg(s: Seq<Node>)
    ensures
        weights_sum(s) >= 0,
    decreases s.len(),
{
    if s.len() > 0 {
        lemma_weights_sum_nonneg(s.drop_last());
    }
}

/// Replacing one slot shifts the sum by the difference of the weights.
proof fn lemma_weights_sum_update(s: Seq<Node>, i: int, x: Node)
    requires
        0 <= i < s.len(),
    ensures
        weights_sum(s.update(i, x)) == weights_sum(s) - s[i].weight + x.weight,
    decreases s.len(),
{
    let s2 = s.update(i, x);
    if i == s.len() - 1 {
        assert(s2.drop_last() =~= s.drop_last());
    } else {
        assert(s2.drop_last() =~= s.drop_last().update(i, x));
        lemma_weights_sum_update(s.drop_last(), i, x);
    }
}

/// Replacing one slot swaps one element of the multiset for another.
proof fn lemma_update_multiset(s: Seq<Node>, i: int, x: Node)
    requires
        0 <= i < s.len(),
    ensures
        s.update(i, x).to_multiset() =~= s.to_multiset().remove(s[i]).insert(x),
{
    broadcast use vstd::seq_lib::group_to_multiset_ensures;
    broadcast use vstd::multiset::group_multiset_axioms;

    let s2 = s.update(i, x);
    assert(s2.remove(i) =~= s.remove(i));
    assert(s2.to_multiset().remove(s2[i]) =~= s.to_multiset().remove(s[i]));
    assert(s2.contains(x)) by {
        assert(s2[i] == x);
    }
    assert(s2.to_multiset().count(x) > 0);
    assert forall|a: Node|
        s2.to_multiset().count(a) == s.to_multiset().remove(s[i]).insert(x).count(a) by {
        if a == x {
        } else {
            assert(s2.to_multiset().remove(x).count(a) == s2.to_multiset().count(a));
        }
    }
}

/// Swapping two slots leaves the multiset and the sum unchanged.
fn swap_nodes(v: &mut Vec<Node>, i: usize, j: usize)
    requires
        i < old(v)@.len(),
        j < old(v)@.len(),
        i != j,
    ensures
        final(v)@ == old(v)@.update(i as int, old(v)@[j as int]).update(
            j as int,
            old(v)@[i as int],
        ),
        final(v)@.len() == old(v)@.len(),
        final(v)@.to_multiset() == old(v)@.to_multiset(),
        weights_sum(final(v)@) == weights_sum(old(v)@),
{
    let ghost s = v@;
    let a = v[i].clone();
    let b = v[j].clone();
    v[i] = b;
    v[j] = a;
    proof {
        broadcast use vstd::multiset::group_multiset_axioms;

        let s1 = s.update(i as int, s[j as int]);
        lemma_update_multiset(s, i as int, s[j as int]);
        assert(s1[j as int] == s[j as int]);
        lemma_update_multiset(s1, j as int, s[i as int]);
        assert(s.to_multiset().contains(s[i as int])) by {
            broadcast use vstd::seq_lib::group_to_multiset_ensures;

            assert(s.contains(s[i as int]));
        }
        assert(s1.update(j as int, s[i as int]).to_multiset() =~= s.to_multiset());
        lemma_weights_sum_update(s, i as int, s[j as int]);
        lemma_weights_sum_update(s1, j as int, s[i as int]);
    }
}

/// A heap everywhere, except that the slot at `idx` may weigh less than
/// its parent; that parent still bounds the slot's children.
pub open spec fn heap_except_at(s: Seq<Node>, idx: int) -> bool {
    &&& forall|i: int|
        1 <= i < s.len() && i != idx ==> s[parent_of(i)].weight <= (
        #[trigger] s[i]).weight
    &&& (idx > 0 ==> forall|c: int|
        1 <= c < s.len() && parent_of(c) == idx ==> s[parent_of(idx)].weight <= (
        #[trigger] s[c]).weight)
}

/// The array with two slots exchanged.
pub open spec fn swap_seq(s: Seq<Node>, i: int, j: int) -> Seq<Node> {
    s.update(i, s[j]).update(j, s[i])
}

/// The upward walk after an insertion: the slot trades places with its
/// parent for as long as it weighs less.
pub open spec fn sift_up(s: Seq<Node>, idx: int) -> Seq<Node>
    decreases idx,
{
    if idx <= 0 || idx >= s.len() {
        s
    } else {
        let p = parent_of(idx);
        if s[p].weight > s[idx].weight {
            sift_up(swap_seq(s, p, idx), p)
        } else {
            s
        }
    }
}

/// The array after the root is taken out: the last node moves into the
/// root's slot (when there are at least two) and the tail shrinks by
/// one.
pub open spec fn root_removed(s: Seq<Node>) -> Seq<Node> {
    if s.len() <= 1 {
        s.drop_last()
    } else {
        swap_seq(s, 0, s.len() - 1).drop_last()
    }
}

/// The downward walk after a removal: the slot trades places with its
/// left child when that child weighs less, otherwise with its right
/// child when that one does; the left child is examined first.
pub open spec fn sift_down(s: Seq<Node>, idx: int) -> Seq<Node>
    decreases s.len() - idx,
{
    if idx < 0 || idx >= s.len() {
        s
    } else {
        let l = 2 * idx + 1;
        let r = 2 * idx + 2;
        if l < s.len() && s[l].weight < s[idx].weight {
            sift_down(swap_seq(s, idx, l), l)
        } else if r < s.len() && s[r].weight < s[idx].weight {
            sift_down(swap_seq(s, idx, r), r)
        } else {
            s
        }
    }
}

/// An implementation of a binary min-heap.
#[derive(Debug)]
pub struct Heap {
    pub elems: Vec<Node>,
}

impl Default for Heap {
    /// An empty heap.
    fn default() -> (r: Self)
        ensures
            r.elems@.len() == 0,
    {
        Heap { elems: Vec::new() }
    }
}

impl Heap {
    /// How many nodes the heap holds.
    pub fn size(&self) -> (r: usize)
        ensures
            r == self.elems@.len(),
    {
        self.elems.len()
    }

    /// The parent slot of an index, if the index is not the root.
    pub fn get_parent_idx(&self, idx: usize) -> (r: Option<usize>)
        ensures
            match r {
                Option::Some(p) => idx >= 1 && p == parent_of(idx as int),
                Option::None => idx == 0,
            },
    {
        if idx == 0 {
            return None;
        }
        if idx == 1 {
            return Some(0);
        }
        Some((idx - 1) / 2)
    }

    /// The left child slot of an index, if it is within the heap.
    pub fn left_child_idx(&self, idx: usize) -> (r: Option<usize>)
        ensures
            match r {
                Option::Some(l) => l == 2 * idx + 1 && l < self.elems@.len(),
                Option::None => 2 * (idx as int) + 1 >= self.elems@.len(),
            },
    {
        let l = idx as u128 * 2 + 1;
        if l < self.elems.len() as u128 {
            Some(l as usize)
        } else {
            None
        }
    }

    /// The right child slot of an index, if it is within the heap.
    pub fn right_child_idx(&self, idx: usize) -> (r: Option<usize>)
        ensures
            match r {
                Option::Some(rt) => rt == 2 * idx + 2 && rt < self.elems@.len(),
                Option::None => 2 * (idx as int) + 2 >= self.elems@.len(),
            },
    {
        let rt = idx as u128 * 2 + 2;
        if rt < self.elems.len() as u128 {
            Some(rt as usize)
        } else {
            None
        }
    }

    /// Whether the slot weighs less than its parent.
    fn needs_lift(&self, idx: usize) -> (r: bool)
        requires
            1 <= idx < self.elems@.len(),
        ensures
            r == (self.elems@[parent_of(idx as int)].weight > self.elems@[idx as int].weight),
    {
        let p = (idx - 1) / 2;
        self.elems[p].weight() > self.elems[idx].weight()
    }

    /// Inserts a node and swaps it upward until the order is restored,
    /// then hands back a copy of the array. A heap stays a heap.
    #[verifier::rlimit(50)]
    pub fn insert(&mut self, elem: Node) -> (r: Vec<Node>)
        ensures
            final(self).elems@ == sift_up(
                old(self).elems@.push(elem),
                old(self).elems@.len() as int,
            ),
            (old(self).elems@.len() == 0 || old(self).elems@[parent_of(
                old(self).elems@.len() as int,
            )].weight <= elem.weight) ==> final(self).elems@ == old(self).elems@.push(elem),
            final(self).elems@.len() == old(self).elems@.len() + 1,
            final(self).elems@.to_multiset() == old(self).elems@.to_multiset().insert(elem),
            weights_sum(final(self).elems@) == weights_sum(old(self).elems@)
                + elem.weight,
            is_min_heap(old(self).elems@) ==> is_min_heap(final(self).elems@),
            r@ == final(self).elems@,
    {
        let ghost orig = self.elems@;
        self.elems.push(elem);
        proof {
            broadcast use vstd::seq_lib::group_to_multiset_ensures;

            assert(self.elems@.drop_last() =~= orig);
            if is_min_heap(orig) {
                assert(heap_except_at(self.elems@, orig.len() as int)) by {
                    assert forall|i: int|
                        1 <= i < self.elems@.len() && i != orig.len() implies self.elems@[parent_of(
                        i,
                    )].weight <= (#[trigger] self.elems@[i]).weight by {
                        assert(self.elems@[i] == orig[i]);
                        assert(self.elems@[parent_of(i)] == orig[parent_of(i)]);
                    }
                }
            }
        }
        let mut idx: usize = self.elems.len() - 1;
        while idx > 0 && self.needs_lift(idx)
            invariant
                idx < self.elems@.len(),
                self.elems@.len() == orig.len() + 1,
                sift_up(orig.push(elem), orig.len() as int) == sift_up(self.elems@, idx as int),
                self.elems@.to_multiset() == orig.to_multiset().insert(elem),
                weights_sum(self.elems@) == weights_sum(orig) + elem.weight,
                is_min_heap(orig) ==> heap_except_at(self.elems@, idx as int),
            decreases idx,
        {
            let ghost s = self.elems@;
            let p = (idx - 1) / 2;
            swap_nodes(&mut self.elems, p, idx);
            proof {
                let pi = p as int;
                let ix = idx as int;
                let s2 = self.elems@;
                if is_min_heap(orig) {
                    assert(heap_except_at(s2, pi)) by {
                        assert forall|i: int|
                            1 <= i < s2.len() && i != pi implies s2[parent_of(i)].weight
                            <= (#[trigger] s2[i]).weight by {
                            if i == ix {
                            } else if parent_of(i) == ix {
                                assert(s[parent_of(ix)].weight <= s[i].weight);
                            } else if parent_of(i) == pi {
                                assert(s[pi].weight <= s[i].weight);
                            } else {
                                assert(s2[i] == s[i]);
                                assert(s2[parent_of(i)] == s[parent_of(i)]);
                            }
                        }
                        if pi > 0 {
                            assert forall|c: int|
                                1 <= c < s2.len() && parent_of(c) == pi implies s2[parent_of(
                                pi,
                            )].weight <= (#[trigger] s2[c]).weight by {
                                assert(s2[parent_of(pi)] == s[parent_of(pi)]);
                                if c == ix {
                                    assert(s[parent_of(pi)].weight <= s[pi].weight);
                                } else {
                                    assert(s2[c] == s[c]);
                                    assert(s[parent_of(pi)].weight <= s[pi].weight);
                                    assert(s[pi].weight <= s[c].weight);
                                }
                            }
                        }
                    }
                }
            }
            idx = p;
        }
        proof {
            if is_min_heap(orig) {
                assert(is_min_heap(self.elems@)) by {
                    if idx > 0 {
                        assert(self.elems@[parent_of(idx as int)].weight
                            <= self.elems@[idx as int].weight);
                    }
                }
            }
        }
        self.elems.clone()
    }

    /// Removes and returns the root, after moving the last node to the
    /// root and letting it sink. With the order in place beforehand, the
    /// node handed back weighs no more than anything the heap held.
    pub fn delete(&mut self) -> (r: Node)
        requires
            old(self).elems@.len() >= 1,
        ensures
            r == old(self).elems@[0],
            final(self).elems@ == sift_down(root_removed(old(self).elems@), 0),
            final(self).elems@.len() == old(self).elems@.len() - 1,
            final(self).elems@.to_multiset() == old(self).elems@.to_multiset().remove(r),
            weights_sum(final(self).elems@) == weights_sum(old(self).elems@) - r.weight,
            is_min_heap(old(self).elems@) ==> forall|i: int|
                0 <= i < old(self).elems@.len() ==> r.weight <= (#[trigger] old(
                    self,
                ).elems@[i]).weight,
    {
        let ghost orig = self.elems@;
        let elems_len = self.elems.len();
        if elems_len - 1 > 0 {
            swap_nodes(&mut self.elems, 0, elems_len - 1);
        }
        let ghost swapped = self.elems@;
        let return_value = self.elems.pop().unwrap();
        proof {
            broadcast use vstd::seq_lib::group_to_multiset_ensures;
            broadcast use vstd::multiset::group_multiset_axioms;

            assert(swapped.remove(swapped.len() - 1) =~= self.elems@);
            assert(return_value == orig[0]);
            if is_min_heap(orig) {
                assert forall|i: int| 0 <= i < orig.len() implies return_value.weight <= (
                #[trigger] orig[i]).weight by {
                    lemma_root_min(orig, i);
                }
            }
        }
        proof {
            assert(self.elems@ == root_removed(orig));
        }
        let mut idx: usize = 0;
        loop
            invariant
                self.elems@.len() == orig.len() - 1,
                sift_down(root_removed(orig), 0) == sift_down(self.elems@, idx as int),
                self.elems@.to_multiset() == orig.to_multiset().remove(return_value),
                weights_sum(self.elems@) == weights_sum(orig) - return_value.weight,
                idx < self.elems@.len() || self.elems@.len() == 0,
            ensures
                self.elems@.len() == orig.len() - 1,
                self.elems@ == sift_down(root_removed(orig), 0),
                self.elems@.to_multiset() == orig.to_multiset().remove(return_value),
                weights_sum(self.elems@) == weights_sum(orig) - return_value.weight,
            decreases self.elems@.len() - idx,
        {
            match self.left_child_idx(idx) {
                Option::Some(left_child_idx) => {
                    if self.elems[left_child_idx].weight() < self.elems[idx].weight() {
                        swap_nodes(&mut self.elems, idx, left_child_idx);
                        idx = left_child_idx;
                        continue;
                    }
                },
                Option::None => {},
            }
            match self.right_child_idx(idx) {
                Option::Some(right_child_idx) => {
                    if self.elems[right_child_idx].weight() < self.elems[idx].weight() {
                        swap_nodes(&mut self.elems, idx, right_child_idx);
                        idx = right_child_idx;
                        continue;
                    }
                },
                Option::None => {},
            }
            break;
        }
        return_value
    }
}

/// In a min-heap the root weighs no more than any slot: each slot's
/// chain of parents leads to the root with weights never increasing.
pub proof fn lemma_root_min(s: Seq<Node>, i: int)
    requires
        is_min_heap(s),
        0 <= i < s.len(),
    ensures
        s[0].weight <= s[i].weight,
    decreases i,
{
    if i > 0 {
        lemma_root_min(s, parent_of(i));
    }
}

} // verus!
