//! Checking a tree at run time: the colour rules by a walk that counts black
//! nodes, the search-tree rule by a walk that carries the two payloads
//! between which a subtree must stay.

use crate::color::{black_height, black_unit, subtree_size};
use crate::node::{NodeColor, NodeDirection, RbNode, RbTrait, links_of, red_at};
use crate::order::{
    greater, lemma_sorted_range_all, lemma_sorted_range_join, less, precedes, sorted_range,
    strict_weak_order,
};
use crate::shape::{Span, lemma_node_fits, lemma_root_fits, linked, shape_ok};
use crate::tree::RbTree;
use vstd::prelude::*;

verus! {

/// What the walk over the subtree in slot `c` answers when it starts with
/// `seen` black nodes above `c` and the count `target` of an earlier path, if
/// there was one: whether the subtree keeps the colour rules and its paths
/// reach the count of the earlier one.
pub open spec fn count_agrees(height: Option<nat>, target: Option<usize>, seen: usize) -> bool {
    match (height, target) {
        (None, _) => false,
        (Some(_), None) => true,
        (Some(k), Some(t)) => t == seen + k,
    }
}

/// The handle before the subtree of `h` in the order, if there is one.
pub open spec fn lower_bound(
    order: Seq<usize>,
    spans: Map<usize, Span>,
    h: usize,
) -> Option<usize> {
    if spans[h].lo > 0 {
        Some(order[spans[h].lo - 1])
    } else {
        None
    }
}

/// The handle behind the subtree of `h` in the order, if there is one.
pub open spec fn upper_bound(
    order: Seq<usize>,
    spans: Map<usize, Span>,
    h: usize,
) -> Option<usize> {
    if spans[h].hi < order.len() {
        Some(order[spans[h].hi])
    } else {
        None
    }
}

impl<Key: Default, T: RbTrait<Key> + PartialOrd> RbTree<Key, T> {
    /// Walks the subtree in slot `node`, with `current_black_count` black
    /// nodes above it. The first path that ends sets `black_count`; every
    /// later one must reach the same count. Answers whether no red node of
    /// the subtree has a red child and every path reaches that count.
    pub(crate) fn verify_properties(
        &self,
        nodes: &[RbNode<Key, T>],
        node: Option<usize>,
        black_count: &mut Option<usize>,
        current_black_count: usize,
    ) -> (r: bool)
        requires
            shape_ok(links_of(nodes@), self.root, self.order@, self.spans@),
            node matches Some(h) ==> linked(self.spans@, h),
            current_black_count + subtree_size(self.spans@, node) <= self.order@.len(),
            self.order@.len() <= usize::MAX,
        ensures
            r == count_agrees(
                black_height(links_of(nodes@), self.spans@, node),
                *old(black_count),
                current_black_count,
            ),
            r ==> (*final(black_count) matches Some(t) && t == current_black_count + black_height(
                links_of(nodes@),
                self.spans@,
                node,
            )->0),
            *old(black_count) is Some ==> *final(black_count) == *old(black_count),
        decreases subtree_size(self.spans@, node),
    {
        let ghost ls = links_of(nodes@);
        let mut current_black_count = current_black_count;
        let h = match node {
            None => {
                if black_count.is_none() {
                    *black_count = Some(current_black_count);
                }
                return *black_count == Some(current_black_count);
            },
            Some(h) => h,
        };
        proof {
            lemma_node_fits(ls, self.root, self.order@, self.spans@, h);
            assert(ls[h as int] == nodes@[h as int].links());
            assert(ls[h as int].child(NodeDirection::LeftChild) == ls[h as int].left);
            assert(ls[h as int].child(NodeDirection::RightChild) == ls[h as int].right);
        }
        let ghost l = ls[h as int].left;
        let ghost r = ls[h as int].right;
        proof {
            if let Some(a) = l {
                lemma_node_fits(ls, self.root, self.order@, self.spans@, a);
            }
            if let Some(b) = r {
                lemma_node_fits(ls, self.root, self.order@, self.spans@, b);
            }
            assert(subtree_size(self.spans@, l) < subtree_size(self.spans@, node));
            assert(subtree_size(self.spans@, r) < subtree_size(self.spans@, node));
            assert(black_height(ls, self.spans@, node) == (match (
                black_height(ls, self.spans@, l),
                black_height(ls, self.spans@, r),
            ) {
                (Some(a), Some(b)) => if a == b && (ls[h as int].color == NodeColor::Red
                    ==> !red_at(
                    ls,
                    l,
                ) && !red_at(ls, r)) {
                    Some(a + black_unit(ls[h as int]))
                } else {
                    None
                },
                _ => None,
            }));
        }
        if nodes[h].is_red() {
            if RbNode::has_red_child(nodes, h) {
                return false;
            }
        } else {
            current_black_count += 1
        }
        self.verify_properties(nodes, nodes[h].childs[0], black_count, current_black_count)
            && self.verify_properties(nodes, nodes[h].childs[1], black_count, current_black_count)
    }

    /// Walks the subtree in slot `node`. `left` is the node whose payload
    /// none in the subtree may precede, `right` the node whose payload none
    /// may exceed; either may be absent. Answers whether every node that the
    /// walk meets stays between the two bounds that it inherits.
    pub(crate) fn bst_traversal(
        &self,
        nodes: &[RbNode<Key, T>],
        node: Option<usize>,
        left: Option<usize>,
        right: Option<usize>,
    ) -> (r: bool)
        requires
            strict_weak_order::<T>(),
            shape_ok(links_of(nodes@), self.root, self.order@, self.spans@),
            node matches Some(h) ==> {
                &&& linked(self.spans@, h)
                &&& left == lower_bound(self.order@, self.spans@, h)
                &&& right == upper_bound(self.order@, self.spans@, h)
            },
        ensures
            r == (node matches Some(h) ==> sorted_range(
                self.values(nodes@),
                self.spans@[h].lo - 1,
                self.spans@[h].hi,
            )),
        decreases subtree_size(self.spans@, node),
    {
        let ghost ls = links_of(nodes@);
        let ghost order = self.order@;
        let ghost spans = self.spans@;
        let ghost vals = self.values(nodes@);
        match node {
            Some(h) => {
                let ghost lo = spans[h].lo;
                let ghost p = spans[h].pos;
                let ghost hi = spans[h].hi;
                proof {
                    lemma_node_fits(ls, self.root, order, spans, h);
                    assert(ls[h as int] == nodes@[h as int].links());
                    assert(vals[p] == nodes@[h as int].payload());
                    if let Some(l) = left {
                        self.lemma_wf_handles(nodes@);
                        assert(vals[lo - 1] == nodes@[l as int].payload());
                    }
                    if let Some(u) = right {
                        self.lemma_wf_handles(nodes@);
                        assert(vals[hi] == nodes@[u as int].payload());
                    }
                }
                if let Some(l) = left {
                    if less(&nodes[h].val, &nodes[l].val) {
                        return false;
                    }
                }
                if let Some(u) = right {
                    if greater(&nodes[h].val, &nodes[u].val) {
                        return false;
                    }
                }
                proof {
                    if let Some(c) = ls[h as int].left {
                        lemma_node_fits(ls, self.root, order, spans, c);
                    }
                    if let Some(c) = ls[h as int].right {
                        lemma_node_fits(ls, self.root, order, spans, c);
                    }
                }
                let below = self.bst_traversal(nodes, nodes[h].childs[0], left, node);
                let above = below && self.bst_traversal(nodes, nodes[h].childs[1], node, right);
                proof {
                    assert(sorted_range(vals, lo - 1, p) <==> below);
                    if below {
                        assert(sorted_range(vals, p, hi) <==> above);
                        if above {
                            lemma_sorted_range_join(vals, lo - 1, p, hi);
                        }
                    }
                }
                above
            },
            None => true,
        }
    }

    /// Whether the search-tree rule holds.
    pub fn verify_bst(&self, nodes: &[RbNode<Key, T>]) -> (r: bool)
        requires
            strict_weak_order::<T>(),
            self.wf(nodes@),
        ensures
            r == self.is_ordered(nodes@),
    {
        proof {
            lemma_root_fits(links_of(nodes@), self.root, self.order@, self.spans@);
            lemma_sorted_range_all(self.values(nodes@));
        }
        self.bst_traversal(nodes, self.root, None, None)
    }

    /// Whether the tree is a valid red-black tree: the root is black, no red
    /// node has a red child, every path from a node down to an absent child
    /// passes the same number of black nodes, and in order no payload
    /// precedes an earlier one. An empty tree is valid.
    pub fn verify_tree(&self, nodes: &[RbNode<Key, T>]) -> (r: bool)
        requires
            strict_weak_order::<T>(),
            self.wf(nodes@),
        ensures
            r == self.is_valid(nodes@),
    {
        let mut count: Option<usize> = None;
        let root = match self.root {
            None => {
                proof {
                    lemma_root_fits(links_of(nodes@), self.root, self.order@, self.spans@);
                    assert(self.values(nodes@) =~= Seq::<T>::empty());
                }
                return true;
            },
            Some(root) => root,
        };
        proof {
            lemma_root_fits(links_of(nodes@), self.root, self.order@, self.spans@);
            self.lemma_wf_handles(nodes@);
            assert(links_of(nodes@)[root as int] == nodes@[root as int].links());
            assert(subtree_size(self.spans@, self.root) == self.order@.len());
        }
        if nodes[root].is_red() {
            return false;
        }
        self.verify_properties(nodes, self.root, &mut count, 0) && self.verify_bst(nodes)
    }
}

} // verus!
