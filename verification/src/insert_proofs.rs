//! Why insertion keeps the shape and the colour rules: what each step of
//! the repair above a new red node leaves.

use crate::color::{
    balanced_at, colors_ok, heights, red_pending, red_rule_at, red_rule_but, straightened_heights,
};
use crate::insert::{above, flipped, risen, rotated_once, rotated_up};
use crate::node::{
    Links, NodeColor, NodeDirection, attached, direction_under, red_at, rotated, transplanted,
    transplanted_root,
};
use crate::remove::lemma_transplanted_at;
use crate::shape::{
    untouched,
    Span, child_span, leaf_links, lemma_node_fits, lemma_promoted_at, lemma_rotated_at,
    lemma_rotation_apart, lemma_rotation_shape, lemma_same_wiring, linked, node_fits, opened_spans,
    promote_spans, promoted, recolored, rotation_apart, rotation_links, shape_ok,
};
use vstd::prelude::*;

verus! {

/// A red leaf attached to an empty slot breaks no rule but, at most, that
/// its parent may be red.
pub proof fn lemma_leaf_colors(
    ls: Seq<Links>,
    root: Option<usize>,
    order: Seq<usize>,
    spans: Map<usize, Span>,
    bh: Map<usize, nat>,
    q: usize,
    d: NodeDirection,
    n: usize,
    ls2: Seq<Links>,
)
    requires
        shape_ok(ls, root, order, spans),
        colors_ok(ls, root, spans, bh),
        linked(spans, q),
        !linked(spans, n),
        n < ls.len(),
        ls[q as int].child(d) is None,
        leaf_links(ls, ls2, q, d, n),
        ls2[n as int].color == NodeColor::Red,
    ensures
        red_pending(
            ls2,
            root,
            opened_spans(spans, child_span(spans[q], d).0, d, n),
            bh.insert(n, 0),
            n,
        ),
{
    reveal(shape_ok);
    reveal(colors_ok);
    reveal(red_pending);
    let spans2 = opened_spans(spans, child_span(spans[q], d).0, d, n);
    let bh2 = bh.insert(n, 0);
    if let Some(r) = root {
        assert(linked(spans, r));
    }
    assert forall|h: usize| #[trigger] linked(spans2, h) implies balanced_at(ls2, bh2, h)
        && red_rule_but(ls2, h, n) by {
        if h != n {
            assert(linked(spans, h));
            assert(node_fits(ls, root, order, spans, h));
        }
    }
}

/// A red root is made black: all rules hold.
pub proof fn lemma_blacken_root(
    ls: Seq<Links>,
    root: Option<usize>,
    order: Seq<usize>,
    spans: Map<usize, Span>,
    bh: Map<usize, nat>,
    x: usize,
)
    requires
        shape_ok(ls, root, order, spans),
        red_pending(ls, root, spans, bh, x),
        linked(spans, x),
        ls[x as int].color == NodeColor::Red,
        ls[x as int].parent is None,
    ensures
        shape_ok(recolored(ls, x, NodeColor::Black), root, order, spans),
        colors_ok(recolored(ls, x, NodeColor::Black), root, spans, bh.insert(x, bh[x] + 1)),
{
    reveal(shape_ok);
    reveal(colors_ok);
    reveal(red_pending);
    let ls2 = recolored(ls, x, NodeColor::Black);
    let bh2 = bh.insert(x, bh[x] + 1);
    lemma_same_wiring(ls, root, order, spans, ls2);
    assert forall|h: usize| #[trigger] linked(spans, h) implies balanced_at(ls2, bh2, h)
        && red_rule_at(ls2, h) by {
        assert(node_fits(ls, root, order, spans, h));
    }
}

/// A red node below a black parent breaks no rule.
pub proof fn lemma_settled(
    ls: Seq<Links>,
    root: Option<usize>,
    order: Seq<usize>,
    spans: Map<usize, Span>,
    bh: Map<usize, nat>,
    x: usize,
    p: usize,
)
    requires
        shape_ok(ls, root, order, spans),
        red_pending(ls, root, spans, bh, x),
        linked(spans, x),
        ls[x as int].parent == Some(p),
        ls[p as int].color == NodeColor::Black,
    ensures
        colors_ok(ls, root, spans, bh),
{
    reveal(shape_ok);
    reveal(colors_ok);
    reveal(red_pending);
    assert forall|h: usize| #[trigger] linked(spans, h) implies balanced_at(ls, bh, h)
        && red_rule_at(ls, h) by {
        assert(node_fits(ls, root, order, spans, h));
    }
}

/// A red parent of the pending node has a parent of its own, which is
/// black and holds it on one side.
pub proof fn lemma_grandparent(
    ls: Seq<Links>,
    root: Option<usize>,
    order: Seq<usize>,
    spans: Map<usize, Span>,
    bh: Map<usize, nat>,
    x: usize,
    p: usize,
)
    requires
        shape_ok(ls, root, order, spans),
        red_pending(ls, root, spans, bh, x),
        linked(spans, x),
        ls[x as int].parent == Some(p),
        ls[p as int].color == NodeColor::Red,
    ensures
        ls[p as int].parent matches Some(g) && {
            &&& linked(spans, g)
            &&& linked(spans, p)
            &&& g < ls.len()
            &&& p < ls.len()
            &&& ls[g as int].color == NodeColor::Black
            &&& ls[g as int].child(direction_under(ls, p, g)) == Some(p)
            &&& ls[p as int].child(direction_under(ls, x, p)) == Some(x)
            &&& ls[g as int].child(direction_under(ls, p, g).other()) matches Some(u) ==> u
                < ls.len() && linked(spans, u)
        },
{
    reveal(shape_ok);
    reveal(red_pending);
    assert(linked(spans, p));
    assert(node_fits(ls, root, order, spans, x));
    assert(node_fits(ls, root, order, spans, p));
    let g = ls[p as int].parent->0;
    assert(linked(spans, g));
    assert(node_fits(ls, root, order, spans, g));
}

/// The black heights after the colour flip below `g`.
pub open spec fn flipped_heights(bh: Map<usize, nat>, p: usize, u: usize) -> Map<usize, nat> {
    bh.insert(p, bh[p] + 1).insert(u, bh[u] + 1)
}

/// A red node below a red parent with a red uncle: after the colour flip the
/// rules hold but at the grandparent, which is red now.
pub proof fn lemma_flip(
    ls: Seq<Links>,
    root: Option<usize>,
    order: Seq<usize>,
    spans: Map<usize, Span>,
    bh: Map<usize, nat>,
    x: usize,
    p: usize,
    g: usize,
    u: usize,
    d: NodeDirection,
)
    requires
        shape_ok(ls, root, order, spans),
        red_pending(ls, root, spans, bh, x),
        linked(spans, x),
        ls[x as int].parent == Some(p),
        ls[p as int].color == NodeColor::Red,
        ls[p as int].parent == Some(g),
        ls[g as int].child(d) == Some(p),
        ls[g as int].child(d.other()) == Some(u),
        ls[u as int].color == NodeColor::Red,
    ensures
        shape_ok(flipped(ls, p, u, g), root, order, spans),
        red_pending(flipped(ls, p, u, g), root, spans, flipped_heights(bh, p, u), g),
        linked(spans, g),
        spans[g].hi - spans[g].lo > spans[x].hi - spans[x].lo,
        spans[g].hi - spans[g].lo <= order.len(),
        untouched(ls, flipped(ls, p, u, g), spans),
{
    reveal(untouched);
    reveal(shape_ok);
    reveal(red_pending);
    let ls2 = flipped(ls, p, u, g);
    let bh2 = flipped_heights(bh, p, u);
    assert(linked(spans, p));
    assert(linked(spans, g));
    assert(linked(spans, u));
    lemma_same_wiring(ls, root, order, spans, ls2);
    assert forall|h: usize| #[trigger] linked(spans, h) implies balanced_at(
        ls2,
        bh2,
        h,
    ) && red_rule_but(ls2, h, g) by {
        assert(node_fits(ls, root, order, spans, h));
    }
}

/// A red node `x` below a red parent `p` on the same side `d` as `p` is
/// below the black grandparent `g`, with no red uncle: after `p` was rotated
/// above `g`, black above a red `g`, all rules hold.
pub proof fn lemma_straighten(
    ls: Seq<Links>,
    root: Option<usize>,
    order: Seq<usize>,
    spans: Map<usize, Span>,
    bh: Map<usize, nat>,
    x: usize,
    p: usize,
    g: usize,
    d: NodeDirection,
    ls2: Seq<Links>,
)
    requires
        shape_ok(ls, root, order, spans),
        red_pending(ls, root, spans, bh, x),
        linked(spans, x),
        ls[x as int].parent == Some(p),
        ls[p as int].color == NodeColor::Red,
        ls[p as int].parent == Some(g),
        ls[p as int].child(d) == Some(x),
        ls[g as int].child(d) == Some(p),
        !red_at(ls, ls[g as int].child(d.other())),
        rotation_links(ls, ls2, p, g, d),
        ls2[p as int].color == ls[g as int].color,
        ls2[g as int].color == NodeColor::Red,
    ensures
        shape_ok(ls2, transplanted_root(ls, root, p, g), order, promote_spans(spans, p, g, d)),
        colors_ok(
            ls2,
            transplanted_root(ls, root, p, g),
            promote_spans(spans, p, g, d),
            straightened_heights(bh, p, g),
        ),
{
    reveal(shape_ok);
    reveal(colors_ok);
    reveal(red_pending);
    let root2 = transplanted_root(ls, root, p, g);
    let spans2 = promote_spans(spans, p, g, d);
    let bh2 = straightened_heights(bh, p, g);
    assert(linked(spans, p));
    assert(linked(spans, g));
    lemma_rotation_shape(ls, root, order, spans, p, g, d, ls2);
    if let Some(t) = ls[g as int].parent {
        assert(linked(spans, t));
    }
    if let Some(b) = ls[p as int].child(d.other()) {
        assert(linked(spans, b));
    }
    if let Some(r) = root {
        assert(linked(spans, r));
    }
    assert forall|h: usize| #[trigger] linked(spans2, h) implies balanced_at(
        ls2,
        bh2,
        h,
    ) && red_rule_at(ls2, h) by {
        assert(linked(spans, h));
        assert(node_fits(ls, root, order, spans, h));
    }
}

/// A red node `x` below a red parent `p`, on side `d` of it while `p` is on
/// the other side of the grandparent `g`: after `x` was rotated above `p`,
/// both red, the rules hold but at `p`, which is now red below the red `x`
/// on the side on which `x` is below `g`.
pub proof fn lemma_zig_zag(
    ls: Seq<Links>,
    root: Option<usize>,
    order: Seq<usize>,
    spans: Map<usize, Span>,
    bh: Map<usize, nat>,
    x: usize,
    p: usize,
    g: usize,
    d: NodeDirection,
    ls2: Seq<Links>,
)
    requires
        shape_ok(ls, root, order, spans),
        red_pending(ls, root, spans, bh, x),
        linked(spans, x),
        ls[x as int].color == NodeColor::Red,
        ls[x as int].parent == Some(p),
        ls[p as int].color == NodeColor::Red,
        ls[p as int].parent == Some(g),
        ls[p as int].child(d) == Some(x),
        ls[g as int].child(d.other()) == Some(p),
        !red_at(ls, ls[g as int].child(d)),
        rotation_links(ls, ls2, x, p, d),
        ls2[x as int].color == NodeColor::Red,
        ls2[p as int].color == NodeColor::Red,
    ensures
        shape_ok(ls2, root, order, promote_spans(spans, x, p, d)),
        red_pending(ls2, root, promote_spans(spans, x, p, d), bh, p),
        linked(promote_spans(spans, x, p, d), p),
        ls2[p as int].parent == Some(x),
        ls2[x as int].parent == Some(g),
        ls2[x as int].child(d.other()) == Some(p),
        ls2[g as int].child(d.other()) == Some(x),
        ls2[g as int].child(d) == ls[g as int].child(d),
        !red_at(ls2, ls2[g as int].child(d)),
        ls2[g as int] == ls[g as int].with_child(d.other(), Some(x)),
{
    reveal(shape_ok);
    reveal(red_pending);
    let spans2 = promote_spans(spans, x, p, d);
    assert(linked(spans, p));
    assert(linked(spans, g));
    lemma_rotation_shape(ls, root, order, spans, x, p, d, ls2);
    if let Some(b) = ls[x as int].child(d.other()) {
        assert(linked(spans, b));
    }
    if let Some(u) = ls[g as int].child(d) {
        assert(linked(spans, u));
    }
    if let Some(r) = root {
        assert(linked(spans, r));
    }
    assert forall|h: usize| #[trigger] linked(spans2, h) implies balanced_at(
        ls2,
        bh,
        h,
    ) && red_rule_but(ls2, h, p) by {
        assert(linked(spans, h));
        assert(node_fits(ls, root, order, spans, h));
    }
}

/// The spans after those rotations.
pub open spec fn rotated_up_spans(
    spans: Map<usize, Span>,
    x: usize,
    p: usize,
    g: usize,
    nd: NodeDirection,
    pd: NodeDirection,
) -> Map<usize, Span> {
    if nd != pd {
        promote_spans(promote_spans(spans, x, p, nd), x, g, pd)
    } else {
        promote_spans(spans, p, g, pd)
    }
}

/// A red node below a red parent with no red uncle: after the rotations all
/// rules hold, and no node outside the tree was written.
pub proof fn lemma_rotate_up(
    ls: Seq<Links>,
    root: Option<usize>,
    order: Seq<usize>,
    spans: Map<usize, Span>,
    bh: Map<usize, nat>,
    x: usize,
    p: usize,
    g: usize,
    nd: NodeDirection,
    pd: NodeDirection,
)
    requires
        shape_ok(ls, root, order, spans),
        red_pending(ls, root, spans, bh, x),
        linked(spans, x),
        ls[x as int].color == NodeColor::Red,
        ls[x as int].parent == Some(p),
        ls[p as int].color == NodeColor::Red,
        ls[p as int].parent == Some(g),
        ls[p as int].child(nd) == Some(x),
        ls[g as int].child(pd) == Some(p),
        !red_at(ls, ls[g as int].child(pd.other())),
    ensures
        ({
            let top = risen(x, p, nd, pd);
            let ls3 = rotated_up(ls, x, p, g, nd, pd);
            let root3 = transplanted_root(ls, root, top, g);
            let spans3 = rotated_up_spans(spans, x, p, g, nd, pd);
            &&& shape_ok(ls3, root3, order, spans3)
            &&& colors_ok(ls3, root3, spans3, straightened_heights(bh, top, g))
            &&& spans3.dom() == spans.dom()
            &&& ls3.len() == ls.len()
            &&& untouched(ls, ls3, spans)
        }),
{
    reveal(untouched);
    reveal(shape_ok);
    let ls3 = rotated_up(ls, x, p, g, nd, pd);
    assert(linked(spans, p));
    assert(linked(spans, g));
    assert(node_fits(ls, root, order, spans, x));
    assert(node_fits(ls, root, order, spans, p));
    assert(node_fits(ls, root, order, spans, g));
    if nd != pd {
        let ls1 = rotated(ls, x, p, nd, NodeColor::Red);
        let ls_a = promoted(ls, x, p, nd, NodeColor::Red);
        let spans_a = promote_spans(spans, x, p, nd);
        lemma_rotation_apart(ls, root, order, spans, x, p, nd);
        lemma_rotated_at(ls, x, p, nd, NodeColor::Red);
        lemma_promoted_at(ls, x, p, nd, NodeColor::Red);
        lemma_zig_zag(ls, root, order, spans, bh, x, p, g, nd, ls_a);
        lemma_rotation_apart(ls_a, root, order, spans_a, x, g, pd);
        assert(rotation_apart(ls1, x, g, pd));
        lemma_promoted_at(ls1, x, g, pd, NodeColor::Red);
        assert(rotation_links(ls_a, ls3, x, g, pd));
        lemma_straighten(ls_a, root, order, spans_a, bh, p, x, g, pd, ls3);
        assert(spans_a.dom() =~= spans.dom());
        assert(rotated_up_spans(spans, x, p, g, nd, pd).dom() =~= spans.dom());
        if let Some(t) = ls[g as int].parent {
            assert(linked(spans, t));
        }
        if let Some(b) = ls[x as int].child(nd.other()) {
            assert(linked(spans, b));
        }
        if let Some(b) = ls[x as int].child(nd) {
            assert(linked(spans, b));
        }
    } else {
        lemma_rotation_apart(ls, root, order, spans, p, g, pd);
        lemma_promoted_at(ls, p, g, pd, NodeColor::Red);
        lemma_straighten(ls, root, order, spans, bh, x, p, g, pd, ls3);
        assert(rotated_up_spans(spans, x, p, g, nd, pd).dom() =~= spans.dom());
        if let Some(t) = ls[g as int].parent {
            assert(linked(spans, t));
        }
        if let Some(b) = ls[p as int].child(pd.other()) {
            assert(linked(spans, b));
        }
    }
}

/// The handles that the rotations read, one after the other, name nodes.
pub open spec fn rotate_up_ready(
    ls: Seq<Links>,
    x: usize,
    p: usize,
    g: usize,
    nd: NodeDirection,
    pd: NodeDirection,
) -> bool {
    let ls1 = rotated_once(ls, x, p, nd, pd);
    let top = risen(x, p, nd, pd);
    &&& x < ls.len() && p < ls.len() && g < ls.len()
    &&& ls[x as int].child(nd.other()) matches Some(c) ==> c < ls.len()
    &&& ls1.len() == ls.len()
    &&& ls1[g as int].parent == ls[g as int].parent
    &&& ls1[g as int].parent matches Some(t) ==> t < ls.len()
    &&& transplanted(ls1, top, g)[top as int].child(pd.other()) matches Some(c) ==> c < ls.len()
}

/// Before those rotations, every handle that they read names a node.
pub proof fn lemma_rotate_up_ready(
    ls: Seq<Links>,
    root: Option<usize>,
    order: Seq<usize>,
    spans: Map<usize, Span>,
    x: usize,
    p: usize,
    g: usize,
    nd: NodeDirection,
    pd: NodeDirection,
)
    requires
        shape_ok(ls, root, order, spans),
        linked(spans, x),
        ls[x as int].parent == Some(p),
        ls[p as int].parent == Some(g),
        ls[p as int].child(nd) == Some(x),
        ls[g as int].child(pd) == Some(p),
    ensures
        rotate_up_ready(ls, x, p, g, nd, pd),
{
    lemma_node_fits(ls, root, order, spans, x);
    lemma_node_fits(ls, root, order, spans, p);
    lemma_node_fits(ls, root, order, spans, g);
    let ls1 = rotated_once(ls, x, p, nd, pd);
    let top = risen(x, p, nd, pd);
    if nd != pd {
        lemma_rotation_apart(ls, root, order, spans, x, p, nd);
        lemma_rotated_at(ls, x, p, nd, NodeColor::Red);
    }
    if let Some(t) = ls[g as int].parent {
        lemma_node_fits(ls, root, order, spans, t);
    }
    lemma_transplanted_at(ls1, top, g);
}

} // verus!
