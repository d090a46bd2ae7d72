//! Insertion: the descent to the free slot, and the repair of the colour
//! rules above the new node.

use crate::color::{
    balanced_at, colors_ok, heights, lemma_colors_valid, lemma_heights_fit, red_pending,
    red_rule_at, straightened_heights, subtree_size,
};
use crate::insert_proofs::{
    flipped_heights, lemma_blacken_root, lemma_flip, lemma_grandparent, lemma_leaf_colors,
    lemma_rotate_up, lemma_rotate_up_ready, lemma_settled, rotated_up_spans,
};
use crate::node::{
    Links, NodeColor, NodeDirection, Outcome, RbNode, RbTrait, attached, direction_under, links_of,
    payloads_of, red_at, rotated, transplanted_root,
};
use crate::order::{
    lemma_all_after_follow, lemma_none_before_follows, lemma_sorted_insert, lemma_upper_rank_is,
    less, precedes, sorted, strict_weak_order, upper_rank,
};
use crate::shape::{
    lemma_untouched_recolored, lemma_untouched_same, lemma_untouched_then, untouched,
    Span, child_span, leaf_links, lemma_leaf_shape, lemma_linked_in_order, lemma_node_fits,
    lemma_root_fits, lemma_single_shape, linked, opened_spans, promoted, recolored, shape_ok,
};
use crate::tree::RbTree;
use vstd::prelude::*;

verus! {

/// What stands above the slot that a descent has reached: the node that
/// holds the slot, and whether the slot is its right one.
pub open spec fn above(parent: Option<usize>, branch: bool) -> Option<(usize, bool)> {
    match parent {
        Some(q) => Some((q, branch)),
        None => None,
    }
}

/// Where the descent for the payload `v` ends when it has reached the slot
/// `c` below `from`: the node with the empty slot that takes the new node,
/// and whether that slot is its right one; `None` if the tree is empty.
///
/// At each node the descent goes left if `v` precedes the payload of the
/// node, and right otherwise. `vals` are the payloads by handle.
pub open spec fn landing<T: PartialOrd>(
    ls: Seq<Links>,
    spans: Map<usize, Span>,
    vals: Seq<T>,
    c: Option<usize>,
    from: Option<(usize, bool)>,
    v: T,
) -> Option<(usize, bool)>
    decreases subtree_size(spans, c),
{
    match c {
        None => from,
        Some(h) => {
            let b = !precedes(v, vals[h as int]);
            let next = ls[h as int].child(NodeDirection::of(b));
            if subtree_size(spans, next) < subtree_size(spans, c) {
                landing(ls, spans, vals, next, Some((h, b)), v)
            } else {
                Some((h, b))
            }
        },
    }
}

/// The links after a red parent `p` and a red uncle `u` were made black and
/// the grandparent `g` red.
pub open spec fn flipped(ls: Seq<Links>, p: usize, u: usize, g: usize) -> Seq<Links> {
    recolored(
        recolored(recolored(ls, p, NodeColor::Black), u, NodeColor::Black),
        g,
        NodeColor::Red,
    )
}

/// The node that those rotations leave in the place of `g`.
pub open spec fn risen(x: usize, p: usize, nd: NodeDirection, pd: NodeDirection) -> usize {
    if nd != pd {
        x
    } else {
        p
    }
}

/// The links after the first of two rotations, if there are two.
pub open spec fn rotated_once(
    ls: Seq<Links>,
    x: usize,
    p: usize,
    nd: NodeDirection,
    pd: NodeDirection,
) -> Seq<Links> {
    if nd != pd {
        rotated(ls, x, p, nd, NodeColor::Red)
    } else {
        ls
    }
}

/// The links after the rotations that end the repair: `x` is red below the
/// red `p`, on side `nd` of it, and `p` is on side `pd` of the black `g`.
pub open spec fn rotated_up(
    ls: Seq<Links>,
    x: usize,
    p: usize,
    g: usize,
    nd: NodeDirection,
    pd: NodeDirection,
) -> Seq<Links> {
    if nd != pd {
        promoted(rotated(ls, x, p, nd, NodeColor::Red), x, g, pd, NodeColor::Red)
    } else {
        promoted(ls, p, g, pd, NodeColor::Red)
    }
}

/// The links and the root after the colour rules were restored above `x`,
/// a red node that may stand below a red parent.
///
/// A root is made black. Below a black parent nothing is to do. Below a red
/// parent with a red uncle, parent and uncle are made black, the
/// grandparent red, and the repair goes on above the grandparent. Below a
/// red parent without a red uncle, the rotations of `rotated_up` end the
/// repair. `n` is the number of linked nodes. In a tree a red parent has a
/// parent, and a grandparent has the larger subtree: the two guards that
/// say so only serve to make this a definition for all arguments.
pub open spec fn repaired(
    ls: Seq<Links>,
    root: Option<usize>,
    spans: Map<usize, Span>,
    n: nat,
    x: usize,
) -> Outcome
    decreases n - subtree_size(spans, Some(x)),
{
    match ls[x as int].parent {
        None => Outcome { links: recolored(ls, x, NodeColor::Black), root: Some(x) },
        Some(p) => if ls[p as int].color == NodeColor::Black || ls[p as int].parent is None {
            Outcome { links: ls, root: root }
        } else {
            let g = ls[p as int].parent->0;
            let nd = direction_under(ls, x, p);
            let pd = direction_under(ls, p, g);
            let uncle = ls[g as int].child(pd.other());
            if red_at(ls, uncle) {
                if subtree_size(spans, Some(x)) < subtree_size(spans, Some(g)) <= n {
                    repaired(flipped(ls, p, uncle->0, g), root, spans, n, g)
                } else {
                    Outcome { links: ls, root: root }
                }
            } else {
                Outcome {
                    links: rotated_up(ls, x, p, g, nd, pd),
                    root: transplanted_root(ls, root, risen(x, p, nd, pd), g),
                }
            }
        },
    }
}

/// The links and the root after the node `node` was inserted: a first node
/// becomes the black root; any other is attached where its descent ends,
/// and the colour rules are restored above it.
pub open spec fn inserted<T: PartialOrd>(
    ls: Seq<Links>,
    root: Option<usize>,
    order: Seq<usize>,
    spans: Map<usize, Span>,
    vals: Seq<T>,
    node: usize,
) -> Outcome {
    match landing(ls, spans, vals, root, None, vals[node as int]) {
        None => Outcome { links: recolored(ls, node, NodeColor::Black), root: Some(node) },
        Some((q, b)) => {
            let d = NodeDirection::of(b);
            repaired(
                attached(ls, q, d, Some(node)),
                root,
                opened_spans(spans, child_span(spans[q], d).0, d, node),
                order.len() + 1,
                node,
            )
        },
    }
}

impl<Key: Default, T: RbTrait<Key> + PartialOrd> RbTree<Key, T> {
    /// Links `node` into the tree and returns the tree.
    ///
    /// `node` must be red and without links, as `RbNode::new` makes it and
    /// `delete` leaves it, and not in the tree. From the root downwards the
    /// descent goes left where the new payload precedes the one met and
    /// right otherwise, so that a tie goes to the right: the node enters the
    /// in-order sequence before the payloads that its own precedes and
    /// behind all others, those that rank equal to it included. `upper_rank`
    /// is that position. The colour rules are then restored. The links and
    /// the root afterwards are exactly those of `inserted`; no payload is
    /// touched, and no node outside the tree but `node` is written.
    pub fn insert(&mut self, nodes: &mut [RbNode<Key, T>], node: usize) -> (r: &mut Self)
        requires
            strict_weak_order::<T>(),
            old(self).wf(old(nodes)@),
            old(self).is_valid(old(nodes)@),
            node < old(nodes).len(),
            !old(self)@.contains(node),
            old(nodes)[node as int].links() == Links::unlinked(),
        ensures
            *final(self) == *final(r),
            final(nodes).len() == old(nodes).len(),
            payloads_of(final(nodes)@) == payloads_of(old(nodes)@),
            r.wf(final(nodes)@),
            r.is_valid(final(nodes)@),
            r@ == old(self)@.insert(
                upper_rank(old(self).values(old(nodes)@), old(nodes)[node as int].payload()),
                node,
            ),
            r.values(final(nodes)@) == old(self).values(old(nodes)@).insert(
                upper_rank(old(self).values(old(nodes)@), old(nodes)[node as int].payload()),
                old(nodes)[node as int].payload(),
            ),
            r@.len() == old(self)@.len() + 1,
            forall|h: usize| #[trigger] r@.contains(h) <==> h == node || old(self)@.contains(h),
            links_of(final(nodes)@) == old(self).inserted(old(nodes)@, node).links,
            r.root() == old(self).inserted(old(nodes)@, node).root,
            r.root() matches Some(t) && final(nodes)[t as int].links().is_black(),
            forall|h: usize|
                h < old(nodes).len() ==> (#[trigger] final(nodes)[h as int]).payload() == old(
                    nodes,
                )[h as int].payload(),
            forall|h: usize|
                h < old(nodes).len() && h != node && !old(self)@.contains(h) ==> (
                #[trigger] final(nodes)[h as int]).links() == old(nodes)[h as int].links(),
    {
        let mut parent: Option<usize> = None;
        let mut p = self.root;
        let mut branch: bool = false;
        let ghost ls = links_of(nodes@);
        let ghost root = self.root;
        let ghost order = self.order@;
        let ghost spans = self.spans@;
        let ghost vals = self.values(nodes@);
        let ghost pays = payloads_of(nodes@);
        let ghost v = nodes@[node as int].payload();
        let ghost mut lo: int = 0;
        let ghost mut hi: int = order.len() as int;
        proof {
            lemma_linked_in_order(ls, root, order, spans, node);
            lemma_root_fits(ls, root, order, spans);
        }
        while p.is_some()
            invariant
                nodes@ == old(nodes)@,
                *self == *old(self),
                ls == links_of(nodes@),
                root == self.root,
                order == self.order@,
                spans == self.spans@,
                vals == self.values(nodes@),
                pays == payloads_of(nodes@),
                v == nodes@[node as int].payload(),
                node < nodes.len(),
                landing(ls, spans, pays, p, above(parent, branch), v) == landing(
                    ls,
                    spans,
                    pays,
                    root,
                    None,
                    v,
                ),
                shape_ok(ls, root, order, spans),
                sorted(vals),
                strict_weak_order::<T>(),
                0 <= lo <= hi <= order.len(),
                forall|i: int| 0 <= i < lo ==> !precedes(v, #[trigger] vals[i]),
                forall|i: int| hi <= i < order.len() ==> precedes(v, #[trigger] vals[i]),
                match p {
                    Some(c) => linked(spans, c) && spans[c].lo == lo && spans[c].hi == hi && c
                        < nodes.len(),
                    None => lo == hi,
                },
                match parent {
                    None => p == root,
                    Some(q) => {
                        &&& linked(spans, q)
                        &&& q < nodes.len()
                        &&& ls[q as int].child(NodeDirection::of(branch)) == p
                        &&& child_span(spans[q], NodeDirection::of(branch)) == (lo, hi)
                    },
                },
            decreases hi - lo,
        {
            let c = p.unwrap();
            proof {
                lemma_node_fits(ls, root, order, spans, c);
                assert(vals[spans[c].pos] == nodes@[c as int].payload());
                assert(pays[c as int] == nodes@[c as int].payload());
                assert(pays[node as int] == v);
            }
            parent = p;
            branch = !less(&nodes[node].val, &nodes[c].val);
            p = nodes[c].get_child(NodeDirection::from(branch));
            proof {
                if branch {
                    lemma_none_before_follows(vals, v, spans[c].pos);
                    lo = spans[c].pos + 1;
                } else {
                    lemma_all_after_follow(vals, v, spans[c].pos);
                    hi = spans[c].pos;
                }
            }
        }
        let ghost k = lo;
        proof {
            lemma_upper_rank_is(vals, v, k);
            lemma_sorted_insert(vals, v, k);
            order.insert_ensures(k, node);
        }
        match parent {
            None => {
                // root node
                self.root = Some(node);
                RbNode::paint(nodes, node, NodeColor::Black);
                let ghost order2 = seq![node];
                let ghost spans2 = map![node => Span { lo: 0, pos: 0, hi: 1 }];
                self.order = Ghost(order2);
                self.spans = Ghost(spans2);
                proof {
                    let ls2 = links_of(nodes@);
                    let bh = map![node => 1nat];
                    assert(ls2 =~= recolored(ls, node, NodeColor::Black));
                    assert(payloads_of(nodes@) =~= payloads_of(old(nodes)@));
                    lemma_single_shape(ls2, node);
                    assert(colors_ok(ls2, self.root, self.spans@, bh)) by {
                        reveal(colors_ok);
                        assert forall|h: usize| #[trigger]
                            linked(self.spans@, h) implies balanced_at(ls2, bh, h)
                            && red_rule_at(ls2, h) by {
                            assert(h == node);
                        }
                    }
                    lemma_colors_valid(ls2, self.root, self.order@, self.spans@, bh);
                    assert(self.order@ =~= order.insert(k, node));
                    assert(payloads_of(nodes@)[node as int] == nodes@[node as int].payload());
                    assert(payloads_of(old(nodes)@)[node as int] == v);
                    assert(self.values(nodes@) =~= vals.insert(k, v));
                    assert forall|h: usize|
                        h < old(nodes).len() && h != node && !old(self)@.contains(h) implies (
                    #[trigger] nodes@[h as int]).links() == old(nodes)@[h as int].links() by {
                        assert(ls2[h as int] == nodes@[h as int].links());
                        assert(ls[h as int] == old(nodes)@[h as int].links());
                    }
                }
            },
            Some(q) => {
                let ghost d = NodeDirection::of(branch);
                proof {
                    lemma_node_fits(ls, root, order, spans, q);
                    lemma_heights_fit(ls, root, order, spans);
                }
                RbNode::insert_child(nodes, q, NodeDirection::from(branch), node);
                let ghost ls2 = links_of(nodes@);
                let ghost spans2 = opened_spans(spans, k, d, node);
                let ghost bh2 = heights(ls, spans).insert(node, 0);
                let ghost order2 = order.insert(k, node);
                self.order = Ghost(order2);
                self.spans = Ghost(spans2);
                proof {
                    reveal(attached);
                    assert(leaf_links(ls, ls2, q, d, node));
                    lemma_leaf_shape(ls, root, order, spans, q, d, node, ls2);
                    lemma_leaf_colors(ls, root, order, spans, heights(ls, spans), q, d, node, ls2);
                }
                let out = self.insert_rebalance(nodes, node, Ghost(bh2));
                proof {
                    let ls3 = links_of(nodes@);
                    lemma_colors_valid(ls3, self.root, self.order@, self.spans@, out@);
                    assert(self.values(nodes@) =~= vals.insert(k, v)) by {
                        self.lemma_wf_handles(nodes@);
                        vals.insert_ensures(k, v);
                        assert(payloads_of(nodes@) == payloads_of(old(nodes)@));
                        assert forall|i: int| 0 <= i < self.order@.len() implies self.values(
                            nodes@,
                        )[i] == vals.insert(k, v)[i] by {
                            let h = self.order@[i];
                            assert(h < nodes.len());
                            assert(payloads_of(nodes@)[h as int] == payloads_of(old(nodes)@)[h as int]);
                            if i < k {
                                assert(h == order[i]);
                            } else if i > k {
                                assert(h == order[i - 1]);
                            }
                        }
                    }
                    assert forall|h: usize|
                        h < old(nodes).len() && h != node && !old(self)@.contains(h) implies (
                    #[trigger] nodes@[h as int]).links() == old(nodes)@[h as int].links() by {
                        reveal(untouched);
                        lemma_linked_in_order(ls, root, order, spans, h);
                        assert(!linked(spans2, h));
                        assert(ls3[h as int] == ls2[h as int]);
                        assert(ls2[h as int] == ls[h as int]);
                    }
                }
            },
        }
        proof {
            self.lemma_wf_handles(nodes@);
            lemma_root_fits(links_of(nodes@), self.root, self.order@, self.spans@);
            assert forall|h: usize| #[trigger] self@.contains(h) <==> h == node || old(
                self,
            )@.contains(h) by {
                lemma_linked_in_order(ls, root, order, spans, h);
                lemma_linked_in_order(
                    links_of(nodes@),
                    self.root,
                    self.order@,
                    self.spans@,
                    h,
                );
            }
            assert forall|h: usize| h < old(nodes).len()
                implies (#[trigger] nodes@[h as int]).payload()
                == old(nodes)@[h as int].payload() by {
                assert(payloads_of(nodes@)[h as int] == nodes@[h as int].payload());
                assert(payloads_of(old(nodes)@)[h as int] == old(nodes)@[h as int].payload());
            }
        }
        self
    }

    /// Restores the colour rules above `node`, a red node that may stand
    /// below a red parent. Walks upwards while the uncle is red, flipping
    /// colours, and ends with at most two rotations.
    pub(crate) fn insert_rebalance(
        &mut self,
        nodes: &mut [RbNode<Key, T>],
        node: usize,
        Ghost(bh0): Ghost<Map<usize, nat>>,
    ) -> (out: Ghost<Map<usize, nat>>)
        requires
            shape_ok(links_of(old(nodes)@), old(self).root, old(self).order@, old(self).spans@),
            linked(old(self).spans@, node),
            links_of(old(nodes)@)[node as int].color == NodeColor::Red,
            red_pending(links_of(old(nodes)@), old(self).root, old(self).spans@, bh0, node),
        ensures
            final(nodes).len() == old(nodes).len(),
            payloads_of(final(nodes)@) == payloads_of(old(nodes)@),
            final(self).order@ == old(self).order@,
            final(self).spans@.dom() == old(self).spans@.dom(),
            shape_ok(
                links_of(final(nodes)@),
                final(self).root,
                final(self).order@,
                final(self).spans@,
            ),
            colors_ok(links_of(final(nodes)@), final(self).root, final(self).spans@, out@),
            untouched(links_of(old(nodes)@), links_of(final(nodes)@), old(self).spans@),
            (Outcome { links: links_of(final(nodes)@), root: final(self).root }) == repaired(
                links_of(old(nodes)@),
                old(self).root,
                old(self).spans@,
                old(self).order@.len(),
                node,
            ),
    {
        let ghost start = node;
        let mut node = node;
        let ghost mut bh = bh0;
        proof {
            lemma_untouched_same(links_of(nodes@), self.spans@);
        }
        loop
            invariant_except_break
                linked(self.spans@, node),
                links_of(nodes@)[node as int].color == NodeColor::Red,
                red_pending(links_of(nodes@), self.root, self.spans@, bh, node),
                self.spans@ == old(self).spans@,
                repaired(links_of(nodes@), self.root, self.spans@, self.order@.len(), node)
                    == repaired(
                    links_of(old(nodes)@),
                    old(self).root,
                    old(self).spans@,
                    old(self).order@.len(),
                    start,
                ),
            invariant
                nodes.len() == old(nodes).len(),
                payloads_of(nodes@) == payloads_of(old(nodes)@),
                self.order@ == old(self).order@,
                self.spans@.dom() == old(self).spans@.dom(),
                shape_ok(links_of(nodes@), self.root, self.order@, self.spans@),
                untouched(links_of(old(nodes)@), links_of(nodes@), old(self).spans@),
            ensures
                colors_ok(links_of(nodes@), self.root, self.spans@, bh),
                (Outcome { links: links_of(nodes@), root: self.root }) == repaired(
                    links_of(old(nodes)@),
                    old(self).root,
                    old(self).spans@,
                    old(self).order@.len(),
                    start,
                ),
            decreases self.order@.len() - (self.spans@[node].hi - self.spans@[node].lo),
        {
            let ghost ls = links_of(nodes@);
            let ghost root = self.root;
            let ghost order = self.order@;
            let ghost spans = self.spans@;
            let ghost x = node;
            proof {
                lemma_node_fits(ls, root, order, spans, x);
            }
            let mut p = match nodes[node].get_parent() {
                None => {
                    RbNode::paint(nodes, node, NodeColor::Black);
                    self.root = Some(node);
                    proof {
                        lemma_blacken_root(ls, root, order, spans, bh, x);
                        lemma_untouched_recolored(ls, spans, x, NodeColor::Black);
                        lemma_untouched_then(
                            links_of(old(nodes)@),
                            ls,
                            links_of(nodes@),
                            old(self).spans@,
                            spans,
                        );
                        bh = bh.insert(x, bh[x] + 1);
                    }
                    break ;
                },
                Some(p) => p,
            };
            let ghost p0 = p;
            proof {
                lemma_node_fits(ls, root, order, spans, p0);
            }
            if nodes[p].is_black() {
                proof {
                    lemma_settled(ls, root, order, spans, bh, x, p0);
                }
                break ;
            }
            proof {
                lemma_grandparent(ls, root, order, spans, bh, x, p0);
            }
            let gp = nodes[p].get_parent().unwrap();
            let mut nd = RbNode::get_direction(nodes, node, p);
            let pd = RbNode::get_direction(nodes, p, gp);
            let ghost nd0 = nd;
            let uncle = RbNode::get_the_other_child_of_color(nodes, gp, &pd, NodeColor::Red);
            if let Some(u) = uncle {
                RbNode::paint(nodes, p, NodeColor::Black);
                RbNode::paint(nodes, u, NodeColor::Black);
                node = gp;
                RbNode::paint(nodes, node, NodeColor::Red);
                proof {
                    lemma_flip(ls, root, order, spans, bh, x, p0, gp, u, pd);
                    lemma_untouched_then(
                        links_of(old(nodes)@),
                        ls,
                        links_of(nodes@),
                        old(self).spans@,
                        spans,
                    );
                    bh = flipped_heights(bh, p0, u);
                }
                continue ;
            } else {
                proof {
                    lemma_rotate_up(ls, root, order, spans, bh, x, p0, gp, nd0, pd);
                    lemma_rotate_up_ready(ls, root, order, spans, x, p0, gp, nd0, pd);
                }
                if nd != pd {
                    RbNode::rotate_with_parent(nodes, node, p, nd, NodeColor::Red);
                    nd = pd;
                    p = node;
                }
                assert(links_of(nodes@) == rotated_once(ls, x, p0, nd0, pd));
                RbNode::inherit_parent(nodes, p, gp, self);
                RbNode::rotate_with_parent(nodes, p, gp, nd, NodeColor::Red);
                let ghost new_spans = rotated_up_spans(spans, x, p0, gp, nd0, pd);
                proof {
                    assert(links_of(nodes@) == rotated_up(ls, x, p0, gp, nd0, pd));
                    lemma_untouched_then(
                        links_of(old(nodes)@),
                        ls,
                        links_of(nodes@),
                        old(self).spans@,
                        spans,
                    );
                    bh = straightened_heights(bh, risen(x, p0, nd0, pd), gp);
                }
                self.spans = Ghost(new_spans);
                break ;
            }
        }
        Ghost(bh)
    }
}

} // verus!
