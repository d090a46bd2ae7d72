//! The colour rules: no red node has a red child, and every path from a node
//! down to an absent child passes the same number of black nodes.
//!
//! `black_height` states the rules by recursion over the tree. The proofs of
//! the operations work with the same rules stated node by node, over a map
//! that gives each linked node its black height; the two statements are
//! shown to agree.

use crate::node::{Links, NodeColor, NodeDirection, red_at};
use crate::shape::{Span, linked, node_fits, shape_ok};
use vstd::prelude::*;

verus! {

/// The number of nodes in the subtree below the slot `c`.
pub open spec fn subtree_size(spans: Map<usize, Span>, c: Option<usize>) -> nat {
    match c {
        Some(h) => if spans.dom().contains(h) && spans[h].hi > spans[h].lo {
            (spans[h].hi - spans[h].lo) as nat
        } else {
            0
        },
        None => 0,
    }
}

/// What a black node adds to the black height of its subtree.
pub open spec fn black_unit(l: Links) -> nat {
    if l.color == NodeColor::Black {
        1
    } else {
        0
    }
}

/// The black height of the subtree in slot `c`: `Some(k)` if no red node in
/// it has a red child and every path from `c` down to an absent child passes
/// exactly `k` black nodes; `None` if the subtree breaks one of the rules.
pub open spec fn black_height(
    ls: Seq<Links>,
    spans: Map<usize, Span>,
    c: Option<usize>,
) -> Option<nat>
    decreases subtree_size(spans, c),
{
    match c {
        None => Some(0nat),
        Some(h) => {
            let l = ls[h as int].left;
            let r = ls[h as int].right;
            if subtree_size(spans, l) < subtree_size(spans, c) && subtree_size(spans, r)
                < subtree_size(spans, c) {
                match (black_height(ls, spans, l), black_height(ls, spans, r)) {
                    (Some(a), Some(b)) => if a == b && (ls[h as int].color == NodeColor::Red
                        ==> !red_at(
                        ls,
                        l,
                    ) && !red_at(ls, r)) {
                        Some(a + black_unit(ls[h as int]))
                    } else {
                        None
                    },
                    _ => None,
                }
            } else {
                None
            }
        },
    }
}

/// The black height that `bh` gives to the slot `c`.
pub open spec fn bh_of(bh: Map<usize, nat>, c: Option<usize>) -> nat {
    match c {
        Some(k) => bh[k],
        None => 0,
    }
}

/// The two subtrees of `h` have the same black height, and that of `h` is
/// theirs plus one if `h` is black.
pub open spec fn balanced_at(ls: Seq<Links>, bh: Map<usize, nat>, h: usize) -> bool {
    &&& bh_of(bh, ls[h as int].left) == bh_of(bh, ls[h as int].right)
    &&& bh[h] == bh_of(bh, ls[h as int].left) + black_unit(ls[h as int])
}

/// If `h` is red, none of its children is.
pub open spec fn red_rule_at(ls: Seq<Links>, h: usize) -> bool {
    ls[h as int].color == NodeColor::Red ==> !red_at(ls, ls[h as int].left) && !red_at(
        ls,
        ls[h as int].right,
    )
}

/// The colour rules hold at every linked node, with the black heights `bh`,
/// and the root is not red.
#[verifier::opaque]
pub open spec fn colors_ok(
    ls: Seq<Links>,
    root: Option<usize>,
    spans: Map<usize, Span>,
    bh: Map<usize, nat>,
) -> bool {
    &&& forall|h: usize| #[trigger]
        linked(spans, h) ==> balanced_at(ls, bh, h) && red_rule_at(ls, h)
    &&& !red_at(ls, root)
}

/// If `h` is red, none of its children is, unless that child is `x`.
pub open spec fn red_rule_but(ls: Seq<Links>, h: usize, x: usize) -> bool {
    ls[h as int].color == NodeColor::Red ==> {
        &&& (!red_at(ls, ls[h as int].left) || ls[h as int].left == Some(x))
        &&& (!red_at(ls, ls[h as int].right) || ls[h as int].right == Some(x))
    }
}

/// The colour rules hold but for one thing: `x` may be red below a red
/// parent, or red at the root.
#[verifier::opaque]
pub open spec fn red_pending(
    ls: Seq<Links>,
    root: Option<usize>,
    spans: Map<usize, Span>,
    bh: Map<usize, nat>,
    x: usize,
) -> bool {
    &&& forall|h: usize| #[trigger]
        linked(spans, h) ==> balanced_at(ls, bh, h) && red_rule_but(ls, h, x)
    &&& (red_at(ls, root) ==> root == Some(x))
}

/// The subtree on side `d` of `q` is one black node short of its sibling,
/// and `bh` gives `q` the height that it had before that.
pub open spec fn short_at(ls: Seq<Links>, bh: Map<usize, nat>, q: usize, d: NodeDirection) -> bool {
    &&& bh_of(bh, ls[q as int].child(d)) + 1 == bh_of(bh, ls[q as int].child(d.other()))
    &&& bh[q] == bh_of(bh, ls[q as int].child(d.other())) + black_unit(ls[q as int])
}

/// The colour rules hold but for one thing: below `q`, the subtree on side
/// `d` is one black node short. The root of that subtree is not red.
#[verifier::opaque]
pub open spec fn black_pending(
    ls: Seq<Links>,
    root: Option<usize>,
    spans: Map<usize, Span>,
    bh: Map<usize, nat>,
    q: usize,
    d: NodeDirection,
) -> bool {
    &&& forall|h: usize| #[trigger]
        linked(spans, h) ==> red_rule_at(ls, h) && (h != q ==> balanced_at(ls, bh, h))
    &&& short_at(ls, bh, q, d)
    &&& !red_at(ls, ls[q as int].child(d))
    &&& !red_at(ls, root)
}

/// The black heights after a node `p` was rotated above its parent `g` and
/// the two exchanged the heights of their subtrees.
pub open spec fn straightened_heights(bh: Map<usize, nat>, p: usize, g: usize) -> Map<usize, nat> {
    bh.insert(g, bh[p]).insert(p, bh[g])
}

/// The black height of each linked node, read off `black_height`.
pub open spec fn heights(ls: Seq<Links>, spans: Map<usize, Span>) -> Map<usize, nat> {
    Map::new(
        |h: usize| spans.dom().contains(h),
        |h: usize|
            match black_height(ls, spans, Some(h)) {
                Some(k) => k,
                None => 0,
            },
    )
}

/// Where a subtree keeps the colour rules, each subtree inside it does.
pub proof fn lemma_height_descends(
    ls: Seq<Links>,
    root: Option<usize>,
    order: Seq<usize>,
    spans: Map<usize, Span>,
    h: usize,
    x: usize,
)
    requires
        shape_ok(ls, root, order, spans),
        linked(spans, h),
        linked(spans, x),
        spans[h].lo <= spans[x].pos < spans[h].hi,
        black_height(ls, spans, Some(h)) is Some,
    ensures
        black_height(ls, spans, Some(x)) is Some,
    decreases spans[h].hi - spans[h].lo,
{
    reveal(shape_ok);
    if x != h {
        let l = ls[h as int].left;
        let r = ls[h as int].right;
        assert(node_fits(ls, root, order, spans, h));
        assert(node_fits(ls, root, order, spans, x));
        if spans[x].pos < spans[h].pos {
            let c = l->0;
            assert(linked(spans, c));
            lemma_height_descends(ls, root, order, spans, c, x);
        } else {
            let c = r->0;
            assert(linked(spans, c));
            lemma_height_descends(ls, root, order, spans, c, x);
        }
    }
}

/// A tree that keeps the colour rules keeps them node by node, with the
/// black heights that `heights` reads off.
pub proof fn lemma_heights_fit(
    ls: Seq<Links>,
    root: Option<usize>,
    order: Seq<usize>,
    spans: Map<usize, Span>,
)
    requires
        shape_ok(ls, root, order, spans),
        black_height(ls, spans, root) is Some,
        !red_at(ls, root),
    ensures
        colors_ok(ls, root, spans, heights(ls, spans)),
{
    reveal(shape_ok);
    reveal(colors_ok);
    let bh = heights(ls, spans);
    assert forall|h: usize| #[trigger] linked(spans, h) implies balanced_at(ls, bh, h)
        && red_rule_at(ls, h) by {
        let r = root->0;
        assert(linked(spans, r));
        assert(node_fits(ls, root, order, spans, h));
        lemma_height_descends(ls, root, order, spans, r, h);
    }
}

/// Black heights that fit node by node are the black heights of the
/// subtrees.
pub proof fn lemma_black_height_is(
    ls: Seq<Links>,
    root: Option<usize>,
    order: Seq<usize>,
    spans: Map<usize, Span>,
    bh: Map<usize, nat>,
    c: Option<usize>,
)
    requires
        shape_ok(ls, root, order, spans),
        forall|h: usize| #[trigger]
            linked(spans, h) ==> balanced_at(ls, bh, h) && red_rule_at(ls, h),
        c matches Some(h) ==> linked(spans, h),
    ensures
        black_height(ls, spans, c) == Some(bh_of(bh, c)),
    decreases subtree_size(spans, c),
{
    reveal(shape_ok);
    if let Some(h) = c {
        assert(node_fits(ls, root, order, spans, h));
        let l = ls[h as int].left;
        let r = ls[h as int].right;
        if let Some(a) = l {
            assert(linked(spans, a));
        }
        if let Some(b) = r {
            assert(linked(spans, b));
        }
        lemma_black_height_is(ls, root, order, spans, bh, l);
        lemma_black_height_is(ls, root, order, spans, bh, r);
    }
}

/// A tree that keeps the colour rules node by node has a black height,
/// and its root is not red.
pub proof fn lemma_colors_valid(
    ls: Seq<Links>,
    root: Option<usize>,
    order: Seq<usize>,
    spans: Map<usize, Span>,
    bh: Map<usize, nat>,
)
    requires
        shape_ok(ls, root, order, spans),
        colors_ok(ls, root, spans, bh),
    ensures
        black_height(ls, spans, root) == Some(bh_of(bh, root)),
        !red_at(ls, root),
{
    reveal(shape_ok);
    reveal(colors_ok);
    lemma_black_height_is(ls, root, order, spans, bh, root);
}

/// The colour rules of a tree do not read the nodes that it does not link.
pub proof fn lemma_colors_frame(
    ls: Seq<Links>,
    root: Option<usize>,
    order: Seq<usize>,
    spans: Map<usize, Span>,
    bh: Map<usize, nat>,
    ls2: Seq<Links>,
)
    requires
        shape_ok(ls, root, order, spans),
        colors_ok(ls, root, spans, bh),
        ls2.len() == ls.len(),
        forall|h: usize| #[trigger] linked(spans, h) && h < ls.len()
            ==> ls2[h as int] == ls[h as int],
    ensures
        colors_ok(ls2, root, spans, bh),
{
    reveal(shape_ok);
    reveal(colors_ok);
    assert forall|h: usize| #[trigger] linked(spans, h) implies balanced_at(ls2, bh, h)
        && red_rule_at(ls2, h) by {
        assert(node_fits(ls, root, order, spans, h));
        if let Some(a) = ls[h as int].left {
            assert(linked(spans, a));
        }
        if let Some(b) = ls[h as int].right {
            assert(linked(spans, b));
        }
    }
    if let Some(r) = root {
        assert(linked(spans, r));
    }
}

/// The black height of a subtree does not read the nodes that the tree
/// does not link.
pub proof fn lemma_black_height_frame(
    ls: Seq<Links>,
    root: Option<usize>,
    order: Seq<usize>,
    spans: Map<usize, Span>,
    ls2: Seq<Links>,
    c: Option<usize>,
)
    requires
        shape_ok(ls, root, order, spans),
        ls2.len() == ls.len(),
        forall|h: usize| #[trigger] linked(spans, h) && h < ls.len()
            ==> ls2[h as int] == ls[h as int],
        c matches Some(h) ==> linked(spans, h),
    ensures
        black_height(ls2, spans, c) == black_height(ls, spans, c),
    decreases subtree_size(spans, c),
{
    reveal(shape_ok);
    if let Some(h) = c {
        assert(node_fits(ls, root, order, spans, h));
        let l = ls[h as int].left;
        let r = ls[h as int].right;
        if let Some(a) = l {
            assert(linked(spans, a));
            assert(node_fits(ls, root, order, spans, a));
        }
        if let Some(b) = r {
            assert(linked(spans, b));
            assert(node_fits(ls, root, order, spans, b));
        }
        lemma_black_height_frame(ls, root, order, spans, ls2, l);
        lemma_black_height_frame(ls, root, order, spans, ls2, r);
    }
}

} // verus!
