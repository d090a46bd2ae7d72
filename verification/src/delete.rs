//! Deletion: the removal of a node from its place, and the repair of the
//! black heights above the place that a black node left.

use crate::color::{
    black_pending, colors_ok, heights, lemma_heights_fit, straightened_heights, subtree_size,
};
use crate::delete_proofs::{
    lemma_cut, lemma_cut_root, lemma_lift_red_sibling, lemma_push_up_ends, lemma_push_up_goes_on,
    lemma_reset, lemma_resolve, lemma_sibling, lemma_splice, lemma_swap, pushed_heights, removed,
    resolved_heights, resolved_spans, swap_heights,
};
use crate::node::{
    Links, NodeColor, NodeDirection, Outcome, RbNode, RbTrait, direction_under, links_of,
    payloads_of, red_at, transplanted, transplanted_root,
};
use crate::order::lemma_sorted_remove;
use crate::remove::{closed_spans, far_swapped, lemma_swap_ready, near_swapped, swap_prepared};
use crate::shape::{
    lemma_untouched_recolored, lemma_untouched_same, lemma_untouched_then, untouched,
    Span, lemma_linked_in_order, lemma_node_fits, lemma_root_fits, lemma_same_wiring, linked,
    promote_spans, promoted, recolored, shape_ok,
};
use crate::tree::RbTree;
use vstd::prelude::*;

verus! {

/// The node that a walk from `c` down the left children ends at.
pub open spec fn leftmost(ls: Seq<Links>, spans: Map<usize, Span>, c: usize) -> usize
    decreases subtree_size(spans, Some(c)),
{
    match ls[c as int].left {
        Some(a) => if subtree_size(spans, Some(a)) < subtree_size(spans, Some(c)) {
            leftmost(ls, spans, a)
        } else {
            c
        },
        None => c,
    }
}

/// The node that takes the place of `n` if `n` has two children: the
/// leftmost node of its right subtree.
pub open spec fn successor(ls: Seq<Links>, spans: Map<usize, Span>, n: usize) -> Option<usize> {
    if ls[n as int].left is Some && ls[n as int].right is Some {
        Some(leftmost(ls, spans, ls[n as int].right->0))
    } else {
        None
    }
}

/// Whether the successor `s` leaves a place that is one black node short:
/// it was black and had no child to fill in.
pub open spec fn leaves_short(ls: Seq<Links>, s: usize) -> bool {
    ls[s as int].color == NodeColor::Black && ls[s as int].right is None
}

/// The links after the successor `s` of `n` took the place of `n`.
pub open spec fn swapped(ls: Seq<Links>, n: usize, s: usize) -> Seq<Links> {
    if ls[n as int].right == Some(s) {
        near_swapped(ls, n, s)
    } else {
        far_swapped(ls, n, s)
    }
}

/// The node below which a side is short after the successor `s` took the
/// place of `n`, if any is.
pub open spec fn swap_fix(ls: Seq<Links>, n: usize, s: usize) -> Option<usize> {
    if !leaves_short(ls, s) {
        None
    } else if ls[n as int].right == Some(s) {
        Some(s)
    } else {
        ls[s as int].parent
    }
}

/// The side that may be short after the successor `s` took the place of
/// `n`.
pub open spec fn swap_side(ls: Seq<Links>, n: usize, s: usize) -> NodeDirection {
    if ls[n as int].right == Some(s) {
        NodeDirection::RightChild
    } else {
        NodeDirection::LeftChild
    }
}

/// What the removal of a node from its place leaves: the links, the root,
/// and the node below which the side `side` is one black node short, if
/// any is.
pub struct Detached {
    pub links: Seq<Links>,
    pub root: Option<usize>,
    pub fix: Option<usize>,
    pub side: NodeDirection,
}

/// The removal of `n` from its place.
///
/// A node with two children gives its place to its successor, whose own
/// place its right child takes. A node with one child gives its place to
/// that child. A node without children leaves its slot empty, which leaves
/// that side of its parent short if the node was black; the last node
/// leaves an empty tree.
#[verifier::opaque]
pub open spec fn detached(
    ls: Seq<Links>,
    root: Option<usize>,
    spans: Map<usize, Span>,
    n: usize,
) -> Detached {
    match (ls[n as int].left, ls[n as int].right) {
        (Some(_), Some(r)) => {
            let s = leftmost(ls, spans, r);
            Detached {
                links: swapped(ls, n, s),
                root: transplanted_root(ls, root, s, n),
                fix: swap_fix(ls, n, s),
                side: swap_side(ls, n, s),
            }
        },
        (Some(c), None) => Detached {
            links: transplanted(ls, c, n),
            root: transplanted_root(ls, root, c, n),
            fix: None,
            side: NodeDirection::LeftChild,
        },
        (None, Some(c)) => Detached {
            links: transplanted(ls, c, n),
            root: transplanted_root(ls, root, c, n),
            fix: None,
            side: NodeDirection::LeftChild,
        },
        (None, None) => match ls[n as int].parent {
            Some(q) => Detached {
                links: ls.update(q as int, ls[q as int].with_child(direction_under(ls, n, q), None)),
                root: root,
                fix: if ls[n as int].color == NodeColor::Black {
                    Some(q)
                } else {
                    None
                },
                side: direction_under(ls, n, q),
            },
            None => Detached { links: ls, root: None, fix: None, side: NodeDirection::LeftChild },
        },
    }
}

/// The links after a red sibling of the short side `d` of `q`, if there is
/// one, was rotated above `q`.
pub open spec fn lifted(ls: Seq<Links>, q: usize, d: NodeDirection) -> Seq<Links> {
    if red_at(ls, ls[q as int].child(d.other())) {
        promoted(ls, ls[q as int].child(d.other())->0, q, d.other(), NodeColor::Red)
    } else {
        ls
    }
}

/// The root after a red sibling of the short side `d` of `q`, if there is
/// one, was rotated above `q`.
pub open spec fn lifted_root(
    ls: Seq<Links>,
    root: Option<usize>,
    q: usize,
    d: NodeDirection,
) -> Option<
    usize,
> {
    if red_at(ls, ls[q as int].child(d.other())) {
        transplanted_root(ls, root, ls[q as int].child(d.other())->0, q)
    } else {
        root
    }
}

/// Whether the far child of the sibling `s` of the short side `d` is not
/// red, so that the near child has to be rotated above `s` first.
pub open spec fn near_first(ls: Seq<Links>, d: NodeDirection, s: usize) -> bool {
    !red_at(ls, ls[s as int].child(d.other()))
}

/// The sibling of the short side `d` once its far child is red: `s`, or
/// the near child of `s` after it was rotated above `s`.
pub open spec fn far_ready_sibling(ls: Seq<Links>, d: NodeDirection, s: usize) -> usize {
    if near_first(ls, d, s) {
        ls[s as int].child(d)->0
    } else {
        s
    }
}

/// The links once the far child of the sibling of the short side `d` is
/// red.
pub open spec fn far_ready(ls: Seq<Links>, d: NodeDirection, s: usize) -> Seq<Links> {
    if near_first(ls, d, s) {
        promoted(ls, ls[s as int].child(d)->0, s, d, NodeColor::Red)
    } else {
        ls
    }
}

/// The links after the rotations that end the repair below `q`: the
/// sibling with a red far child is rotated above `q`.
pub open spec fn resolved_rotated(ls: Seq<Links>, q: usize, d: NodeDirection, s: usize) -> Seq<
    Links,
> {
    promoted(far_ready(ls, d, s), far_ready_sibling(ls, d, s), q, d.other(), NodeColor::Black)
}

/// The links after the repair below `q` ended: after the rotations the far
/// child is made black.
pub open spec fn resolved(ls: Seq<Links>, q: usize, d: NodeDirection, s: usize) -> Seq<Links> {
    let lr = resolved_rotated(ls, q, d, s);
    match lr[far_ready_sibling(ls, d, s) as int].child(d.other()) {
        Some(x) => recolored(lr, x, NodeColor::Black),
        None => lr,
    }
}

/// What one round of the repair leaves: the repair has ended, or it goes on
/// one level up, below the node and on the side given.
pub enum Round {
    Done(Outcome),
    Up(Outcome, usize, NodeDirection),
}

/// One round of the repair where the subtree on side `d` of `q` is one
/// black node short.
///
/// A red sibling is first rotated above `q`, which leaves a black one.
/// Where that sibling has no red child it is made red; then a red `q`, or
/// the root, is made black and the repair ends, and below any other `q` it
/// goes on one level up, on the side on which `q` hangs. Where the sibling
/// has a red child, the rotations of `resolved` end the repair.
#[verifier::opaque]
pub open spec fn round(ls: Seq<Links>, root: Option<usize>, q: usize, d: NodeDirection) -> Round {
    let ls1 = lifted(ls, q, d);
    let root1 = lifted_root(ls, root, q, d);
    match ls1[q as int].child(d.other()) {
        None => Round::Done(Outcome { links: ls1, root: root1 }),
        Some(s) => if !red_at(ls1, ls1[s as int].left) && !red_at(ls1, ls1[s as int].right) {
            let ls2 = recolored(ls1, s, NodeColor::Red);
            match ls2[q as int].parent {
                Some(t) => if root1 != Some(q) && ls2[q as int].color == NodeColor::Black {
                    Round::Up(Outcome { links: ls2, root: root1 }, t, direction_under(ls2, q, t))
                } else {
                    Round::Done(Outcome { links: recolored(ls2, q, NodeColor::Black), root: root1 })
                },
                None => Round::Done(
                    Outcome { links: recolored(ls2, q, NodeColor::Black), root: root1 },
                ),
            }
        } else {
            Round::Done(
                Outcome {
                    links: resolved(ls1, q, d, s),
                    root: transplanted_root(
                        far_ready(ls1, d, s),
                        root1,
                        far_ready_sibling(ls1, d, s),
                        q,
                    ),
                },
            )
        },
    }
}

/// The links and the root after the black heights were repaired where the
/// subtree on side `d` of `q` is one black node short: round after round,
/// upwards, until one ends the repair. `n` is the number of linked nodes;
/// in a tree a parent has the larger subtree of at most `n` nodes, and the
/// guard that says so only serves to make this a definition for all
/// arguments.
pub open spec fn rebalanced(
    ls: Seq<Links>,
    root: Option<usize>,
    spans: Map<usize, Span>,
    n: nat,
    q: usize,
    d: NodeDirection,
) -> Outcome
    decreases n - subtree_size(spans, Some(q)),
{
    match round(ls, root, q, d) {
        Round::Done(o) => o,
        Round::Up(o, t, e) => if subtree_size(spans, Some(q)) < subtree_size(spans, Some(t)) <= n {
            rebalanced(o.links, o.root, spans, n, t, e)
        } else {
            o
        },
    }
}

/// The links and the root after the node `n` was deleted: it is removed
/// from its place, the black heights are repaired where that left a side
/// short, and `n` is left red, without parent or children.
pub open spec fn deleted(
    ls: Seq<Links>,
    root: Option<usize>,
    order: Seq<usize>,
    spans: Map<usize, Span>,
    n: usize,
) -> Outcome {
    let u = detached(ls, root, spans, n);
    let o = match u.fix {
        Some(f) => rebalanced(
            u.links,
            u.root,
            closed_spans(spans, n, successor(ls, spans, n)),
            (order.len() - 1) as nat,
            f,
            u.side,
        ),
        None => Outcome { links: u.links, root: u.root },
    };
    Outcome { links: o.links.update(n as int, Links::unlinked()), root: o.root }
}

/// What `detached` is for a node with one child `c`.
pub proof fn lemma_detached_splice(
    ls: Seq<Links>,
    root: Option<usize>,
    spans: Map<usize, Span>,
    n: usize,
    c: usize,
    d: NodeDirection,
)
    requires
        ls[n as int].child(d) == Some(c),
        ls[n as int].child(d.other()) is None,
    ensures
        detached(ls, root, spans, n) == (Detached {
            links: transplanted(ls, c, n),
            root: transplanted_root(ls, root, c, n),
            fix: None,
            side: NodeDirection::LeftChild,
        }),
        successor(ls, spans, n) is None,
{
    reveal(detached);
}

/// What `detached` is for a node without children.
pub proof fn lemma_detached_cut(
    ls: Seq<Links>,
    root: Option<usize>,
    spans: Map<usize, Span>,
    n: usize,
)
    requires
        ls[n as int].left is None,
        ls[n as int].right is None,
    ensures
        detached(ls, root, spans, n) == (match ls[n as int].parent {
            Some(q) => Detached {
                links: ls.update(q as int, ls[q as int].with_child(direction_under(ls, n, q), None)),
                root: root,
                fix: if ls[n as int].color == NodeColor::Black {
                    Some(q)
                } else {
                    None
                },
                side: direction_under(ls, n, q),
            },
            None => Detached { links: ls, root: None, fix: None, side: NodeDirection::LeftChild },
        }),
        successor(ls, spans, n) is None,
{
    reveal(detached);
}

/// What `detached` is for a node with two children.
pub proof fn lemma_detached_swap(
    ls: Seq<Links>,
    root: Option<usize>,
    spans: Map<usize, Span>,
    n: usize,
)
    requires
        ls[n as int].left is Some,
        ls[n as int].right is Some,
    ensures
        ({
            let s = leftmost(ls, spans, ls[n as int].right->0);
            &&& successor(ls, spans, n) == Some(s)
            &&& detached(ls, root, spans, n) == (Detached {
                links: swapped(ls, n, s),
                root: transplanted_root(ls, root, s, n),
                fix: swap_fix(ls, n, s),
                side: swap_side(ls, n, s),
            })
        }),
{
    reveal(detached);
}

/// A round in which the black sibling `s` has no red child, below a black
/// `q` that is not the root, goes on above `q`.
pub proof fn lemma_round_goes_on(
    ls: Seq<Links>,
    root: Option<usize>,
    q: usize,
    d: NodeDirection,
    s: usize,
    t: usize,
)
    requires
        q < ls.len(),
        s < ls.len(),
        s != q,
        lifted(ls, q, d).len() == ls.len(),
        lifted(ls, q, d)[q as int].child(d.other()) == Some(s),
        !red_at(lifted(ls, q, d), lifted(ls, q, d)[s as int].left),
        !red_at(lifted(ls, q, d), lifted(ls, q, d)[s as int].right),
        lifted(ls, q, d)[q as int].parent == Some(t),
        lifted(ls, q, d)[q as int].color == NodeColor::Black,
        lifted_root(ls, root, q, d) != Some(q),
    ensures
        round(ls, root, q, d) == Round::Up(
            Outcome {
                links: recolored(lifted(ls, q, d), s, NodeColor::Red),
                root: lifted_root(ls, root, q, d),
            },
            t,
            direction_under(recolored(lifted(ls, q, d), s, NodeColor::Red), q, t),
        ),
{
    reveal(round);
}

/// A round in which the black sibling `s` has no red child, below a red
/// `q` or the root, ends the repair.
pub proof fn lemma_round_ends(
    ls: Seq<Links>,
    root: Option<usize>,
    q: usize,
    d: NodeDirection,
    s: usize,
)
    requires
        q < ls.len(),
        s < ls.len(),
        s != q,
        lifted(ls, q, d).len() == ls.len(),
        lifted(ls, q, d)[q as int].child(d.other()) == Some(s),
        !red_at(lifted(ls, q, d), lifted(ls, q, d)[s as int].left),
        !red_at(lifted(ls, q, d), lifted(ls, q, d)[s as int].right),
        lifted_root(ls, root, q, d) == Some(q) || lifted(ls, q, d)[q as int].color
            != NodeColor::Black,
    ensures
        round(ls, root, q, d) == Round::Done(
            Outcome {
                links: recolored(
                    recolored(lifted(ls, q, d), s, NodeColor::Red),
                    q,
                    NodeColor::Black,
                ),
                root: lifted_root(ls, root, q, d),
            },
        ),
{
    reveal(round);
}

/// A round in which the black sibling `s` has a red child ends the repair
/// with rotations.
pub proof fn lemma_round_resolves(
    ls: Seq<Links>,
    root: Option<usize>,
    q: usize,
    d: NodeDirection,
    s: usize,
)
    requires
        lifted(ls, q, d)[q as int].child(d.other()) == Some(s),
        red_at(lifted(ls, q, d), lifted(ls, q, d)[s as int].left) || red_at(
            lifted(ls, q, d),
            lifted(ls, q, d)[s as int].right,
        ),
    ensures
        round(ls, root, q, d) == Round::Done(
            Outcome {
                links: resolved(lifted(ls, q, d), q, d, s),
                root: transplanted_root(
                    far_ready(lifted(ls, q, d), d, s),
                    lifted_root(ls, root, q, d),
                    far_ready_sibling(lifted(ls, q, d), d, s),
                    q,
                ),
            },
        ),
{
    reveal(round);
}

impl<Key: Default, T: RbTrait<Key> + PartialOrd> RbTree<Key, T> {
    /// Unlinks `node` from the tree and returns the tree.
    ///
    /// The node leaves the in-order sequence, in which all other handles
    /// keep their order. A node with two children gives its place to its
    /// successor in that order. The colour rules are restored. The links
    /// and the root afterwards are exactly those of `deleted`; no payload is
    /// touched, and no node outside the tree is written. `node` itself is
    /// left red, without parent or children, ready to be inserted again.
    pub fn delete(&mut self, nodes: &mut [RbNode<Key, T>], node: usize) -> (r: &mut Self)
        requires
            old(self).wf(old(nodes)@),
            old(self).is_red_black(old(nodes)@),
            old(self)@.contains(node),
        ensures
            *final(self) == *final(r),
            final(nodes).len() == old(nodes).len(),
            payloads_of(final(nodes)@) == payloads_of(old(nodes)@),
            r.wf(final(nodes)@),
            r.is_red_black(final(nodes)@),
            r@ == old(self)@.remove(old(self)@.index_of(node)),
            r.values(final(nodes)@) == old(self).values(old(nodes)@).remove(
                old(self)@.index_of(node),
            ),
            old(self).is_ordered(old(nodes)@) ==> r.is_ordered(final(nodes)@),
            r@.len() == old(self)@.len() - 1,
            forall|h: usize| #[trigger] r@.contains(h) <==> h != node && old(self)@.contains(h),
            links_of(final(nodes)@) == old(self).deleted(old(nodes)@, node).links,
            r.root() == old(self).deleted(old(nodes)@, node).root,
            node < old(nodes).len(),
            final(nodes)[node as int].links() == Links::unlinked(),
            r.root() matches Some(t) ==> final(nodes)[t as int].links().is_black(),
            forall|h: usize|
                h < old(nodes).len() ==> (#[trigger] final(nodes)[h as int]).payload() == old(
                    nodes,
                )[h as int].payload(),
            forall|h: usize|
                h < old(nodes).len() && h != node && !old(self)@.contains(h) ==> (
                #[trigger] final(nodes)[h as int]).links() == old(nodes)[h as int].links(),
    {
        let ghost ls = links_of(nodes@);
        let ghost root = self.root;
        let ghost order = self.order@;
        let ghost spans = self.spans@;
        let ghost k = spans[node].pos;
        let ghost bh0 = heights(ls, spans);
        proof {
            lemma_linked_in_order(ls, root, order, spans, node);
            lemma_node_fits(ls, root, order, spans, node);
            lemma_heights_fit(ls, root, order, spans);
        }
        let left = nodes[node].childs[0];
        let right = nodes[node].childs[1];
        let mut di = NodeDirection::LeftChild;
        let mut fix: Option<usize> = None;
        let ghost mut bh = bh0;
        let ghost mut succ: Option<usize> = None;

        if left.is_none() {
            if let Some(c) = right {
                proof {
                    lemma_splice(ls, root, order, spans, bh0, node, c, NodeDirection::RightChild);
                    lemma_detached_splice(ls, root, spans, node, c, NodeDirection::RightChild);
                    bh = bh0.insert(c, bh0[node]);
                }
                RbNode::inherit_parent(nodes, c, node, self);
            } else {
                proof {
                    lemma_detached_cut(ls, root, spans, node);
                }
                let p = nodes[node].get_parent();
                match p {
                    None => {
                        proof {
                            lemma_cut_root(ls, root, order, spans, bh0, node);
                            lemma_untouched_same(ls, spans);
                        }
                        self.root = None;
                    },
                    Some(p) => {
                        di = RbNode::get_direction(nodes, node, p);
                        proof {
                            lemma_cut(ls, root, order, spans, bh0, node, p, di);
                        }
                        nodes[p].childs[usize::from(di)] = None;
                        proof {
                            assert(links_of(nodes@) =~= ls.update(
                                p as int,
                                ls[p as int].with_child(di, None),
                            ));
                            assert(payloads_of(nodes@) =~= payloads_of(old(nodes)@));
                        }
                        if nodes[node].is_black() {
                            fix = Some(p);
                        }
                    },
                }
            }
        } else if right.is_none() {
            let c = left.unwrap();
            proof {
                lemma_splice(ls, root, order, spans, bh0, node, c, NodeDirection::LeftChild);
                lemma_detached_splice(ls, root, spans, node, c, NodeDirection::LeftChild);
                bh = bh0.insert(c, bh0[node]);
            }
            RbNode::inherit_parent(nodes, c, node, self);
        } else {
            let mut far_left: usize = right.unwrap();
            let near_right: Option<usize>;
            let mut x = right;
            let ghost r0 = far_left;
            proof {
                lemma_node_fits(ls, root, order, spans, far_left);
                lemma_detached_swap(ls, root, spans, node);
            }
            loop
                invariant_except_break
                    x matches Some(c) && linked(spans, c) && spans[c].lo == k + 1 && leftmost(
                        ls,
                        spans,
                        c,
                    ) == leftmost(ls, spans, r0),
                invariant
                    nodes@ == old(nodes)@,
                    *self == *old(self),
                    ls == links_of(nodes@),
                    shape_ok(ls, root, order, spans),
                ensures
                    linked(spans, far_left),
                    far_left < nodes.len(),
                    spans[far_left].pos == k + 1,
                    ls[far_left as int].left is None,
                    far_left == leftmost(ls, spans, r0),
                decreases subtree_size(spans, x),
            {
                far_left = x.unwrap();
                proof {
                    lemma_node_fits(ls, root, order, spans, far_left);
                }
                x = nodes[far_left].childs[0];
                if x.is_none() {
                    break ;
                }
                proof {
                    lemma_node_fits(ls, root, order, spans, x->0);
                }
            }
            let ghost s = far_left;
            proof {
                succ = Some(s);
                lemma_swap_ready(ls, root, order, spans, node, s);
                lemma_swap(ls, root, order, spans, bh0, node, s);
                bh = swap_heights(bh0, node, s, ls[s as int].right);
            }
            near_right = nodes[far_left].childs[1];
            let need_fix = nodes[far_left].is_black() && near_right.is_none();
            if far_left != right.unwrap() {
                fix = nodes[far_left].parent;
                RbNode::set_child(
                    nodes,
                    fix.unwrap(),
                    near_right,
                    NodeDirection::LeftChild,
                    NodeColor::Black,
                );
                RbNode::hook_old_child(nodes, far_left, right, NodeDirection::RightChild);
            } else {
                fix = Some(far_left);
                di = NodeDirection::RightChild;
                if let Some(b) = near_right {
                    RbNode::paint(nodes, b, NodeColor::Black);
                }
            }
            assert(links_of(nodes@) == swap_prepared(ls, node, s));

            if !need_fix {
                fix = None;
            }
            RbNode::inherit_parent(nodes, far_left, node, self);
            RbNode::hook_old_child(nodes, far_left, left, NodeDirection::LeftChild);
            assert(links_of(nodes@) == swapped(ls, node, s));
        }
        let ghost order1 = order.remove(k);
        let ghost spans1 = closed_spans(spans, node, succ);
        self.order = Ghost(order1);
        self.spans = Ghost(spans1);
        let ghost ls1 = links_of(nodes@);
        let ghost root1 = self.root;
        assert(succ == successor(ls, spans, node));
        assert(detached(ls, root, spans, node) == (Detached {
            links: ls1,
            root: root1,
            fix: fix,
            side: di,
        }));
        assert(removed(ls1, self.root, order1, spans1, bh, fix, di));
        assert(untouched(ls, ls1, spans));
        assert(!linked(spans1, node));

        if let Some(f) = fix {
            let out = self.delete_reblance(nodes, f, di, Ghost(bh));
            proof {
                bh = out@;
            }
        } else {
            proof {
                lemma_untouched_same(ls1, spans1);
            }
        }
        let ghost ls2 = links_of(nodes@);
        assert(untouched(ls1, ls2, spans1));
        assert(!linked(self.spans@, node));
        RbNode::unlink(nodes, node);
        proof {
            assert(links_of(nodes@)[node as int] == nodes@[node as int].links());
            lemma_reset(ls2, self.root, self.order@, self.spans@, bh, node);
            lemma_root_fits(links_of(nodes@), self.root, self.order@, self.spans@);
            self.lemma_deleted(old(self), nodes@, old(nodes)@, node);
            assert forall|h: usize| #[trigger] self@.contains(h) <==> h != node && old(
                self,
            )@.contains(h) by {
                lemma_linked_in_order(ls, root, order, spans, h);
                lemma_linked_in_order(
                    links_of(nodes@),
                    self.root,
                    self.order@,
                    self.spans@,
                    h,
                );
            }
            assert forall|h: usize| h < old(nodes).len()
                implies (#[trigger] nodes@[h as int]).payload()
                == old(nodes)@[h as int].payload() by {
                assert(payloads_of(nodes@)[h as int] == nodes@[h as int].payload());
                assert(payloads_of(old(nodes)@)[h as int] == old(nodes)@[h as int].payload());
            }
            assert forall|h: usize|
                h < old(nodes).len() && h != node && !old(self)@.contains(h) implies (
            #[trigger] nodes@[h as int]).links() == old(nodes)@[h as int].links() by {
                reveal(untouched);
                lemma_linked_in_order(ls, root, order, spans, h);
                assert(!linked(spans1, h));
                assert(links_of(nodes@)[h as int] == ls2[h as int]);
                assert(ls2[h as int] == ls1[h as int]);
                assert(ls1[h as int] == ls[h as int]);
            }
        }
        self
    }

    /// What a tree that lost the node `node` of `before` holds: the same
    /// payloads in the same order, without that of `node`.
    pub(crate) proof fn lemma_deleted(
        &self,
        before: &Self,
        nodes: Seq<RbNode<Key, T>>,
        nodes0: Seq<RbNode<Key, T>>,
        node: usize,
    )
        requires
            before.wf(nodes0),
            self.wf(nodes),
            nodes.len() == nodes0.len(),
            payloads_of(nodes) == payloads_of(nodes0),
            before@.contains(node),
            self@ == before@.remove(before.spans@[node].pos),
        ensures
            before@.index_of(node) == before.spans@[node].pos,
            self@ == before@.remove(before@.index_of(node)),
            self.values(nodes) == before.values(nodes0).remove(before@.index_of(node)),
            before.is_ordered(nodes0) ==> self.is_ordered(nodes),
    {
        let order = before@;
        let k = before.spans@[node].pos;
        let vals = before.values(nodes0);
        before.lemma_wf_handles(nodes0);
        self.lemma_wf_handles(nodes);
        lemma_linked_in_order(links_of(nodes0), before.root, order, before.spans@, node);
        lemma_node_fits(links_of(nodes0), before.root, order, before.spans@, node);
        assert(order.index_of(node) == k) by {
            let i = order.index_of(node);
            assert(order[k] == node);
            assert(order[i] == node);
        }
        order.remove_ensures(k);
        vals.remove_ensures(k);
        assert(self.values(nodes) =~= vals.remove(k)) by {
            assert forall|i: int| 0 <= i < self@.len() implies self.values(nodes)[i] == vals.remove(
                k,
            )[i] by {
                let h = self@[i];
                let j = if i < k {
                    i
                } else {
                    i + 1
                };
                assert(h == order[j]);
                assert(vals.remove(k)[i] == vals[j]);
                assert(vals[j] == nodes0[h as int].payload());
                assert(h < nodes.len());
                assert(payloads_of(nodes)[h as int] == nodes[h as int].payload());
                assert(payloads_of(nodes0)[h as int] == nodes0[h as int].payload());
                assert(self.values(nodes)[i] == nodes[h as int].payload());
            }
        }
        if before.is_ordered(nodes0) {
            lemma_sorted_remove(vals, k);
        }
    }

    /// Restores the black heights where the subtree on side `nd` of
    /// `parent` is one black node short. Walks upwards while the sibling and
    /// its children are black, and ends with at most three rotations.
    #[verifier::rlimit(30)]
    pub(crate) fn delete_reblance(
        &mut self,
        nodes: &mut [RbNode<Key, T>],
        parent: usize,
        nd: NodeDirection,
        Ghost(bh0): Ghost<Map<usize, nat>>,
    ) -> (out: Ghost<Map<usize, nat>>)
        requires
            shape_ok(links_of(old(nodes)@), old(self).root, old(self).order@, old(self).spans@),
            linked(old(self).spans@, parent),
            black_pending(
                links_of(old(nodes)@),
                old(self).root,
                old(self).spans@,
                bh0,
                parent,
                nd,
            ),
        ensures
            final(nodes).len() == old(nodes).len(),
            payloads_of(final(nodes)@) == payloads_of(old(nodes)@),
            final(self).order@ == old(self).order@,
            final(self).spans@.dom() == old(self).spans@.dom(),
            shape_ok(
                links_of(final(nodes)@),
                final(self).root,
                final(self).order@,
                final(self).spans@,
            ),
            colors_ok(links_of(final(nodes)@), final(self).root, final(self).spans@, out@),
            untouched(links_of(old(nodes)@), links_of(final(nodes)@), old(self).spans@),
            (Outcome { links: links_of(final(nodes)@), root: final(self).root }) == rebalanced(
                links_of(old(nodes)@),
                old(self).root,
                old(self).spans@,
                old(self).order@.len(),
                parent,
                nd,
            ),
    {
        let ghost parent0 = parent;
        let ghost nd0 = nd;
        proof {
            lemma_untouched_same(links_of(nodes@), self.spans@);
        }
        let mut parent = parent;
        let mut nd = nd;
        let mut node: usize = parent;
        let ghost mut bh = bh0;
        loop
            invariant_except_break
                linked(self.spans@, parent),
                black_pending(links_of(nodes@), self.root, self.spans@, bh, parent, nd),
                self.spans@ == old(self).spans@,
                rebalanced(
                    links_of(nodes@),
                    self.root,
                    self.spans@,
                    self.order@.len(),
                    parent,
                    nd,
                ) == rebalanced(
                    links_of(old(nodes)@),
                    old(self).root,
                    old(self).spans@,
                    old(self).order@.len(),
                    parent0,
                    nd0,
                ),
            invariant
                nodes.len() == old(nodes).len(),
                payloads_of(nodes@) == payloads_of(old(nodes)@),
                self.order@ == old(self).order@,
                self.spans@.dom() == old(self).spans@.dom(),
                shape_ok(links_of(nodes@), self.root, self.order@, self.spans@),
                untouched(links_of(old(nodes)@), links_of(nodes@), old(self).spans@),
            ensures
                node < nodes.len(),
                linked(self.spans@, node),
                colors_ok(
                    recolored(links_of(nodes@), node, NodeColor::Black),
                    self.root,
                    self.spans@,
                    bh,
                ),
                (Outcome {
                    links: recolored(links_of(nodes@), node, NodeColor::Black),
                    root: self.root,
                }) == rebalanced(
                    links_of(old(nodes)@),
                    old(self).root,
                    old(self).spans@,
                    old(self).order@.len(),
                    parent0,
                    nd0,
                ),
            decreases self.order@.len() - (self.spans@[parent].hi - self.spans@[parent].lo),
        {
            let ghost ls0 = links_of(nodes@);
            let ghost root0 = self.root;
            let ghost order = self.order@;
            let ghost spans0 = self.spans@;
            let ghost nd_in = nd;
            proof {
                lemma_sibling(ls0, root0, order, spans0, bh, parent, nd);
                lemma_node_fits(ls0, root0, order, spans0, parent);
            }
            let sd = if nd == NodeDirection::LeftChild {
                NodeDirection::RightChild
            } else {
                NodeDirection::LeftChild
            };
            let mut s = nodes[parent].childs[usize::from(sd)];
            let color = match s {
                None => NodeColor::Black,
                Some(sn) => nodes[sn].color,
            };
            if color == NodeColor::Red {
                let sn = s.unwrap();
                proof {
                    lemma_lift_red_sibling(ls0, root0, order, spans0, bh, parent, nd, sn);
                    bh = straightened_heights(bh, sn, parent);
                }
                RbNode::inherit_parent(nodes, sn, parent, self);
                RbNode::rotate_with_parent(nodes, sn, parent, sd, NodeColor::Red);
                let ghost new_spans = promote_spans(spans0, sn, parent, sd);
                self.spans = Ghost(new_spans);
                proof {
                    lemma_untouched_then(
                        links_of(old(nodes)@),
                        ls0,
                        links_of(nodes@),
                        old(self).spans@,
                        spans0,
                    );
                }
                s = nodes[parent].childs[usize::from(sd)];
            }
            let ghost ls = links_of(nodes@);
            let ghost root = self.root;
            let ghost spans = self.spans@;
            proof {
                lemma_sibling(ls, root, order, spans, bh, parent, nd);
                assert(ls == lifted(ls0, parent, nd));
                assert(root == lifted_root(ls0, root0, parent, nd));
            }
            let mut sn = s.unwrap();
            let ghost s0 = sn;
            let left = nodes[sn].childs[0];
            let left_color = match left {
                None => NodeColor::Black,
                Some(c) => nodes[c].color,
            };
            let right = nodes[sn].childs[1];
            let right_color = match right {
                None => NodeColor::Black,
                Some(c) => nodes[c].color,
            };
            let sc = [left, right];
            let scc = [left_color, right_color];
            if left_color == NodeColor::Black && right_color == NodeColor::Black {
                proof {
                    if root != Some(parent) && ls[parent as int].color == NodeColor::Black {
                        lemma_push_up_goes_on(ls, root, order, spans, bh, parent, nd, s0);
                    } else {
                        lemma_push_up_ends(ls, root, order, spans, bh, parent, nd, s0);
                    }
                    bh = pushed_heights(bh, s0, parent);
                }
                RbNode::paint(nodes, sn, NodeColor::Red);
                node = parent;
                let ghost ls2 = links_of(nodes@);
                proof {
                    lemma_untouched_recolored(ls, spans, s0, NodeColor::Red);
                    lemma_untouched_then(links_of(old(nodes)@), ls, ls2, old(self).spans@, spans);
                }
                if self.root != Some(node) && nodes[node].is_black() {
                    let up = nodes[node].parent.unwrap();
                    nd = RbNode::get_direction(nodes, node, up);
                    proof {
                        lemma_round_goes_on(ls0, root0, parent, nd_in, s0, up);
                    }
                    parent = up;
                    continue ;
                } else {
                    proof {
                        lemma_round_ends(ls0, root0, parent, nd_in, s0);
                    }
                    break ;
                }
            } else {
                proof {
                    lemma_resolve(ls, root, order, spans, bh, parent, nd, s0);
                    bh = resolved_heights(ls, bh, parent, nd, s0);
                }
                if scc[usize::from(sd)] == NodeColor::Black {
                    let c = sc[usize::from(nd)].unwrap();
                    RbNode::inherit_parent(nodes, c, sn, self);
                    RbNode::rotate_with_parent(nodes, c, sn, nd, NodeColor::Red);
                    sn = nodes[sn].parent.unwrap();
                }
                assert(links_of(nodes@) == far_ready(ls, nd, s0));
                assert(sn == far_ready_sibling(ls, nd, s0));
                RbNode::inherit_parent(nodes, sn, parent, self);
                RbNode::rotate_with_parent(nodes, sn, parent, sd, NodeColor::Black);
                assert(links_of(nodes@) == resolved_rotated(ls, parent, nd, s0));
                let sdc = nodes[sn].childs[usize::from(sd)];
                if let Some(x) = sdc {
                    RbNode::paint(nodes, x, NodeColor::Black);
                }
                let ghost new_spans = resolved_spans(ls, spans, parent, nd, s0);
                self.spans = Ghost(new_spans);
                node = self.root.unwrap();
                proof {
                    assert(links_of(nodes@) == resolved(ls, parent, nd, s0));
                    assert(recolored(links_of(nodes@), node, NodeColor::Black) =~= links_of(
                        nodes@,
                    ));
                    lemma_untouched_then(
                        links_of(old(nodes)@),
                        ls,
                        links_of(nodes@),
                        old(self).spans@,
                        spans,
                    );
                    lemma_round_resolves(ls0, root0, parent, nd, s0);
                }
                break ;
            }
        }
        let ghost ls_e = links_of(nodes@);
        RbNode::paint(nodes, node, NodeColor::Black);
        proof {
            lemma_same_wiring(ls_e, self.root, self.order@, self.spans@, links_of(nodes@));
            lemma_untouched_recolored(ls_e, self.spans@, node, NodeColor::Black);
            lemma_untouched_then(
                links_of(old(nodes)@),
                ls_e,
                links_of(nodes@),
                old(self).spans@,
                self.spans@,
            );
        }
        Ghost(bh)
    }
}

} // verus!
