//! The tree: the handle of the root node, the order of the nodes it links,
//! and what it means for it to be a valid red-black tree.

use crate::color::{black_height, lemma_black_height_frame};
use crate::delete::deleted;
use crate::insert::inserted;
use crate::node::{Outcome, RbNode, RbTrait, links_of, payloads_of, red_at};
use crate::order::sorted;
use crate::remove::lemma_shape_frame;
use crate::shape::{
    Span, lemma_distinct_handles, lemma_linked_in_order, lemma_node_fits, lemma_root_fits, linked,
    node_fits, shape_ok,
};
use std::marker::PhantomData;
use vstd::prelude::*;

verus! {

/// A red-black tree over nodes that the caller owns.
///
/// The tree holds the handle of its root and nothing else that is ever
/// executed; the nodes stay in the caller's slice, which every operation
/// takes as an argument. For the proofs the tree carries, as ghost state, the
/// in-order sequence of the handles it links and, for each of them, the span
/// of that sequence which its subtree occupies.
///
/// The view of a tree is the in-order sequence of the handles it links.
pub struct RbTree<Key: Default, T: RbTrait<Key> + PartialOrd> {
    pub(crate) root: Option<usize>,
    pub(crate) order: Ghost<Seq<usize>>,
    pub(crate) spans: Ghost<Map<usize, Span>>,
    pub(crate) _marker: PhantomData<(Key, T)>,
}

impl<Key: Default, T: RbTrait<Key> + PartialOrd> View for RbTree<Key, T> {
    type V = Seq<usize>;

    open(crate) spec fn view(&self) -> Seq<usize> {
        self.order@
    }
}

impl<Key: Default, T: RbTrait<Key> + PartialOrd> RbTree<Key, T> {
    /// The handle of the root node.
    pub open(crate) spec fn root(&self) -> Option<usize> {
        self.root
    }

    /// The links of `nodes` form a binary tree below the root of this tree,
    /// with parent and child links that agree, whose in-order sequence of
    /// handles is the view of this tree.
    pub open(crate) spec fn wf(&self, nodes: Seq<RbNode<Key, T>>) -> bool {
        shape_ok(links_of(nodes), self.root, self.order@, self.spans@)
    }

    /// The number of black nodes on every path from the root down to an
    /// absent child, if that number is the same on every such path below
    /// every node and no red node has a red child; `None` otherwise.
    pub open(crate) spec fn black_height(&self, nodes: Seq<RbNode<Key, T>>) -> Option<nat> {
        black_height(links_of(nodes), self.spans@, self.root)
    }

    /// The colour rules hold: the root is not red, no red node has a red
    /// child, and every path from a node down to an absent child passes the
    /// same number of black nodes.
    pub open spec fn is_red_black(&self, nodes: Seq<RbNode<Key, T>>) -> bool {
        &&& self.black_height(nodes) is Some
        &&& !red_at(links_of(nodes), self.root())
    }

    /// The payloads of the linked nodes, in order.
    pub open spec fn values(&self, nodes: Seq<RbNode<Key, T>>) -> Seq<T> {
        Seq::new(self@.len(), |i: int| nodes[self@[i] as int].payload())
    }

    /// The search-tree rule holds: in order, no payload precedes an earlier
    /// one.
    pub open spec fn is_ordered(&self, nodes: Seq<RbNode<Key, T>>) -> bool {
        sorted(self.values(nodes))
    }

    /// The tree is a valid red-black tree: the colour rules and the
    /// search-tree rule hold.
    pub open spec fn is_valid(&self, nodes: Seq<RbNode<Key, T>>) -> bool {
        self.is_red_black(nodes) && self.is_ordered(nodes)
    }

    /// The links of the nodes and the root of the tree after `node` was
    /// inserted.
    ///
    /// Into an empty tree the node goes as the black root. Otherwise the
    /// descent from the root goes left at each node whose payload that of
    /// `node` precedes and right at any other, and the node is attached to
    /// the empty slot at which it arrives. Above it the colour rules are
    /// restored: the node's red parent and red uncle are made black and
    /// their parent red, which moves the repair two levels up, as often as
    /// there is a red uncle; without one, one or two rotations end it; a red
    /// root is made black.
    pub open(crate) spec fn inserted(&self, nodes: Seq<RbNode<Key, T>>, node: usize) -> Outcome {
        inserted(links_of(nodes), self.root, self.order@, self.spans@, payloads_of(nodes), node)
    }

    /// The links of the nodes and the root of the tree after `node` was
    /// deleted.
    ///
    /// A node with two children gives its place and colour to its successor
    /// in order, whose own place its right child takes, made black. A node
    /// with one child gives its place and colour to that child. A node
    /// without children leaves its slot empty. Where a black node without a
    /// child to fill in has left its place, that side of the node above is
    /// one black node short, and the black heights are repaired from there
    /// upwards. The node itself is left red, without parent or children.
    pub open(crate) spec fn deleted(&self, nodes: Seq<RbNode<Key, T>>, node: usize) -> Outcome {
        deleted(links_of(nodes), self.root, self.order@, self.spans@, node)
    }

    /// An empty tree. It is well formed and valid over any slice of nodes.
    pub fn new() -> (r: Self)
        ensures
            r@ == Seq::<usize>::empty(),
            r.root() is None,
            forall|nodes: Seq<RbNode<Key, T>>| #[trigger] r.wf(nodes) && r.is_valid(nodes),
    {
        let r = RbTree {
            root: None,
            order: Ghost(Seq::empty()),
            spans: Ghost(Map::empty()),
            _marker: PhantomData,
        };
        proof {
            reveal(shape_ok);
            assert forall|nodes: Seq<RbNode<Key, T>>| #[trigger] r.wf(nodes) && r.is_valid(
                nodes,
            ) by {
                assert(r.values(nodes) =~= Seq::<T>::empty());
            }
        }
        r
    }

    /// The handle of the root node, if the tree is not empty.
    pub fn get_root(&self) -> (r: Option<usize>)
        ensures
            r == self.root(),
    {
        self.root
    }

    /// The black height of the subtree in slot `c`: the number of black
    /// nodes on every path from `c` down to an absent child, if that number
    /// is the same on every such path below every node of the subtree and
    /// no red node in it has a red child; `None` otherwise.
    pub open(crate) spec fn height_below(&self, nodes: Seq<RbNode<Key, T>>, c: Option<usize>) -> Option<
        nat,
    > {
        black_height(links_of(nodes), self.spans@, c)
    }

    /// The black height of a tree is that below its root. An absent subtree
    /// has the black height 0. The subtree of a node has a black height if
    /// its two subtrees have the same one and, where the node is red, no
    /// child of it is; it is that of the two, plus one if the node is black.
    pub proof fn lemma_black_height(&self, nodes: Seq<RbNode<Key, T>>, c: Option<usize>)
        requires
            self.wf(nodes),
            c matches Some(h) ==> self@.contains(h),
        ensures
            self.black_height(nodes) == self.height_below(nodes, self.root()),
            self.height_below(nodes, c) == (match c {
                None => Some(0nat),
                Some(h) => {
                    let l = nodes[h as int].links();
                    match (self.height_below(nodes, l.left), self.height_below(nodes, l.right)) {
                        (Some(a), Some(b)) => if a == b && (l.is_red() ==> !red_at(
                            links_of(nodes),
                            l.left,
                        ) && !red_at(links_of(nodes), l.right)) {
                            Some(
                                a + if l.is_black() {
                                    1nat
                                } else {
                                    0nat
                                },
                            )
                        } else {
                            None
                        },
                        _ => None,
                    }
                },
            }),
    {
        let ls = links_of(nodes);
        if let Some(h) = c {
            lemma_linked_in_order(ls, self.root, self.order@, self.spans@, h);
            lemma_node_fits(ls, self.root, self.order@, self.spans@, h);
            if let Some(a) = ls[h as int].left {
                lemma_node_fits(ls, self.root, self.order@, self.spans@, a);
            }
            if let Some(b) = ls[h as int].right {
                lemma_node_fits(ls, self.root, self.order@, self.spans@, b);
            }
        }
    }

    /// The root of a tree that keeps the colour rules is black.
    pub proof fn lemma_root_black(&self, nodes: Seq<RbNode<Key, T>>)
        requires
            self.wf(nodes),
            self.is_red_black(nodes),
        ensures
            self.root() matches Some(r) ==> r < nodes.len() && nodes[r as int].links().is_black(),
    {
        lemma_root_fits(links_of(nodes), self.root, self.order@, self.spans@);
    }

    /// A tree reads only the nodes that it links: where two slices agree on
    /// the links of those, the tree is well formed over both, with the same
    /// black height; where they agree on their payloads too, with the same
    /// payloads in order.
    pub proof fn lemma_unlinked_nodes_free(&self, a: Seq<RbNode<Key, T>>, b: Seq<RbNode<Key, T>>)
        requires
            self.wf(a),
            b.len() == a.len(),
            forall|i: int|
                0 <= i < self@.len()
                    ==> b[(#[trigger] self@[i]) as int].links() == a[self@[i] as int].links(),
        ensures
            self.wf(b),
            self.black_height(b) == self.black_height(a),
            self.is_red_black(b) == self.is_red_black(a),
            (forall|i: int|
                0 <= i < self@.len() ==> b[(#[trigger] self@[i]) as int].payload()
                    == a[self@[i] as int].payload()) ==> self.values(b) == self.values(a),
    {
        let la = links_of(a);
        let lb = links_of(b);
        self.lemma_wf_handles(a);
        assert forall|h: usize| #[trigger] linked(self.spans@, h) && h < la.len()
            implies lb[h as int]
            == la[h as int] by {
            lemma_linked_in_order(la, self.root, self.order@, self.spans@, h);
            let i = self@.index_of(h);
            assert(self@[i] == h);
        }
        lemma_shape_frame(la, self.root, self.order@, self.spans@, lb);
        lemma_root_fits(la, self.root, self.order@, self.spans@);
        lemma_black_height_frame(la, self.root, self.order@, self.spans@, lb, self.root);
        if forall|i: int|
            0 <= i < self@.len()
                ==> b[(#[trigger] self@[i]) as int].payload() == a[self@[i] as int].payload() {
            assert(self.values(b) =~= self.values(a));
        }
    }

    /// In a well-formed tree every linked handle names a node of the slice,
    /// no handle is linked twice, and the tree is empty exactly if it has no
    /// root; the root, if any, is linked.
    pub proof fn lemma_wf_handles(&self, nodes: Seq<RbNode<Key, T>>)
        requires
            self.wf(nodes),
        ensures
            self@.no_duplicates(),
            forall|i: int| 0 <= i < self@.len() ==> (#[trigger] self@[i]) < nodes.len(),
            self@.len() <= nodes.len(),
            self.root() is None <==> self@.len() == 0,
            self.root() matches Some(r) ==> self@.contains(r),
    {
        reveal(shape_ok);
        let ls = links_of(nodes);
        assert forall|i: int| 0 <= i < self@.len() implies (#[trigger] self@[i]) < nodes.len() by {
            assert(linked(self.spans@, self@[i]));
            assert(node_fits(ls, self.root, self.order@, self.spans@, self@[i]));
        }
        if let Some(r) = self.root {
            assert(linked(self.spans@, r));
            assert(node_fits(ls, self.root, self.order@, self.spans@, r));
            lemma_linked_in_order(ls, self.root, self.order@, self.spans@, r);
        }
        lemma_distinct_handles(self@, nodes.len());
    }
}

} // verus!
