//! Walks over the linked nodes: in preorder from any node, and in order
//! over the whole tree.

use crate::color::subtree_size;
use crate::node::{Links, RbNode, RbTrait, links_of};
use crate::shape::{Span, lemma_linked_in_order, lemma_node_fits, lemma_root_fits, linked, shape_ok};
use crate::tree::RbTree;
use vstd::prelude::*;

verus! {

/// The handles of the subtree in slot `c` in preorder: a node, then its
/// left subtree, then its right subtree.
pub open spec fn preorder(ls: Seq<Links>, spans: Map<usize, Span>, c: Option<usize>) -> Seq<usize>
    decreases subtree_size(spans, c),
{
    match c {
        None => Seq::empty(),
        Some(h) => {
            let l = ls[h as int].left;
            let r = ls[h as int].right;
            if subtree_size(spans, l) < subtree_size(spans, c) && subtree_size(spans, r)
                < subtree_size(spans, c) {
                seq![h] + preorder(ls, spans, l) + preorder(ls, spans, r)
            } else {
                seq![h]
            }
        },
    }
}

impl<Key: Default, T: RbTrait<Key> + PartialOrd> RbTree<Key, T> {
    /// The handles of the subtree in slot `node` in preorder.
    pub open(crate) spec fn preorder(&self, nodes: Seq<RbNode<Key, T>>, node: Option<usize>) -> Seq<
        usize,
    > {
        preorder(links_of(nodes), self.spans@, node)
    }

    /// The preorder of a subtree is its root, then the preorder of the left
    /// subtree, then that of the right subtree; that of an absent subtree is
    /// empty.
    pub proof fn lemma_preorder(&self, nodes: Seq<RbNode<Key, T>>, node: Option<usize>)
        requires
            self.wf(nodes),
            node matches Some(h) ==> self@.contains(h),
        ensures
            self.preorder(nodes, node) == (match node {
                None => Seq::<usize>::empty(),
                Some(h) => seq![h] + self.preorder(nodes, nodes[h as int].links().left)
                    + self.preorder(nodes, nodes[h as int].links().right),
            }),
            node matches Some(h) ==> {
                &&& h < nodes.len()
                &&& nodes[h as int].links().left matches Some(a) ==> self@.contains(a)
                &&& nodes[h as int].links().right matches Some(b) ==> self@.contains(b)
            },
    {
        let ls = links_of(nodes);
        if let Some(h) = node {
            lemma_linked_in_order(ls, self.root, self.order@, self.spans@, h);
            lemma_node_fits(ls, self.root, self.order@, self.spans@, h);
            if let Some(a) = ls[h as int].left {
                lemma_node_fits(ls, self.root, self.order@, self.spans@, a);
                lemma_linked_in_order(ls, self.root, self.order@, self.spans@, a);
            }
            if let Some(b) = ls[h as int].right {
                lemma_node_fits(ls, self.root, self.order@, self.spans@, b);
                lemma_linked_in_order(ls, self.root, self.order@, self.spans@, b);
            }
        }
    }

    /// Appends the handles of the subtree in slot `node` to `out`, in
    /// preorder.
    fn preorder_into(&self, nodes: &[RbNode<Key, T>], node: Option<usize>, out: &mut Vec<usize>)
        requires
            shape_ok(links_of(nodes@), self.root, self.order@, self.spans@),
            node matches Some(h) ==> linked(self.spans@, h),
        ensures
            final(out)@ == old(out)@ + preorder(links_of(nodes@), self.spans@, node),
        decreases subtree_size(self.spans@, node),
    {
        if let Some(h) = node {
            let ghost ls = links_of(nodes@);
            proof {
                lemma_node_fits(ls, self.root, self.order@, self.spans@, h);
                assert(ls[h as int] == nodes@[h as int].links());
                if let Some(a) = ls[h as int].left {
                    lemma_node_fits(ls, self.root, self.order@, self.spans@, a);
                }
                if let Some(b) = ls[h as int].right {
                    lemma_node_fits(ls, self.root, self.order@, self.spans@, b);
                }
            }
            out.push(h);
            self.preorder_into(nodes, nodes[h].childs[0], out);
            self.preorder_into(nodes, nodes[h].childs[1], out);
            proof {
                let l = ls[h as int].left;
                let r = ls[h as int].right;
                assert(out@ =~= old(out)@ + (seq![h] + preorder(ls, self.spans@, l) + preorder(
                    ls,
                    self.spans@,
                    r,
                )));
            }
        } else {
            assert(out@ =~= old(out)@ + Seq::<usize>::empty());
        }
    }

    /// The handles of the subtree in slot `node`, in preorder: a node, then
    /// its left subtree, then its right subtree.
    pub fn traversal_preorder(&self, nodes: &[RbNode<Key, T>], node: Option<usize>) -> (r: Vec<
        usize,
    >)
        requires
            self.wf(nodes@),
            node matches Some(h) ==> self@.contains(h),
        ensures
            r@ == self.preorder(nodes@, node),
    {
        proof {
            if let Some(h) = node {
                lemma_linked_in_order(links_of(nodes@), self.root, self.order@, self.spans@, h);
            }
        }
        let mut out: Vec<usize> = Vec::new();
        self.preorder_into(nodes, node, &mut out);
        assert(out@ =~= self.preorder(nodes@, node));
        out
    }

    /// Appends the handles of the subtree in slot `node` to `out`, in order.
    fn inorder_into(&self, nodes: &[RbNode<Key, T>], node: Option<usize>, out: &mut Vec<usize>)
        requires
            shape_ok(links_of(nodes@), self.root, self.order@, self.spans@),
            node matches Some(h) ==> linked(self.spans@, h),
        ensures
            final(out)@ == old(out)@ + (match node {
                Some(h) => self.order@.subrange(self.spans@[h].lo, self.spans@[h].hi),
                None => Seq::<usize>::empty(),
            }),
        decreases subtree_size(self.spans@, node),
    {
        if let Some(h) = node {
            let ghost ls = links_of(nodes@);
            let ghost order = self.order@;
            let ghost s = self.spans@[h];
            proof {
                lemma_node_fits(ls, self.root, self.order@, self.spans@, h);
                assert(ls[h as int] == nodes@[h as int].links());
                if let Some(a) = ls[h as int].left {
                    lemma_node_fits(ls, self.root, self.order@, self.spans@, a);
                }
                if let Some(b) = ls[h as int].right {
                    lemma_node_fits(ls, self.root, self.order@, self.spans@, b);
                }
            }
            self.inorder_into(nodes, nodes[h].childs[0], out);
            out.push(h);
            self.inorder_into(nodes, nodes[h].childs[1], out);
            proof {
                assert(out@ =~= old(out)@ + order.subrange(s.lo, s.hi));
            }
        } else {
            assert(out@ =~= old(out)@ + Seq::<usize>::empty());
        }
    }

    /// The handles of the linked nodes in order: for each node, its left
    /// subtree, then the node, then its right subtree. This is the view of
    /// the tree.
    pub fn traversal_inorder(&self, nodes: &[RbNode<Key, T>]) -> (r: Vec<usize>)
        requires
            self.wf(nodes@),
        ensures
            r@ == self@,
    {
        proof {
            lemma_root_fits(links_of(nodes@), self.root, self.order@, self.spans@);
        }
        let mut out: Vec<usize> = Vec::new();
        self.inorder_into(nodes, self.root, &mut out);
        assert(out@ =~= self@);
        out
    }
}

} // verus!
