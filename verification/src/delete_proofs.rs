//! Why deletion keeps the shape and the colour rules: what each step of the
//! removal and of the repair leaves, black height by black height.

use crate::color::{
    balanced_at, bh_of, black_pending, colors_ok, heights, lemma_colors_frame, lemma_colors_valid,
    red_rule_at, short_at, straightened_heights,
};
use crate::delete::{
    far_ready, far_ready_sibling, leaves_short, near_first, resolved, resolved_rotated, successor,
    swap_fix, swap_side, swapped,
};
use crate::node::{
    Links, NodeColor, NodeDirection, direction_under, red_at, transplanted, transplanted_root,
};
use crate::remove::{
    closed_spans, far_swap_links, is_successor, lemma_cut_root_shape, lemma_cut_shape,
    lemma_far_swap_shape, lemma_far_swapped_at, lemma_near_swap_shape, lemma_near_swapped_at,
    lemma_shape_frame, lemma_splice_frame, lemma_splice_shape, lemma_successor_place,
    lemma_swap_frame, lemma_transplanted_at, near_swap_links, splice_links,
};
use crate::shape::{
    untouched,
    Span, lemma_node_fits, lemma_promote_ready, lemma_root_fits, lemma_rotation_shape,
    lemma_same_wiring, linked, node_fits, promote_ready, promote_spans, promoted, recolored,
    rotation_links, shape_ok,
};
use vstd::prelude::*;

verus! {

/// The state of a deletion after the node left its place and before the
/// black heights are repaired: `fix` is the node below which one side,
/// `di`, is short, if any is.
pub open spec fn removed(
    ls: Seq<Links>,
    root: Option<usize>,
    order: Seq<usize>,
    spans: Map<usize, Span>,
    bh: Map<usize, nat>,
    fix: Option<usize>,
    di: NodeDirection,
) -> bool {
    &&& shape_ok(ls, root, order, spans)
    &&& match fix {
        Some(f) => linked(spans, f) && black_pending(ls, root, spans, bh, f, di),
        None => colors_ok(ls, root, spans, bh),
    }
}

/// The black heights after the successor `s` took the place of `n` and the
/// right child of `s`, if any, was made black.
pub open spec fn swap_heights(bh: Map<usize, nat>, n: usize, s: usize, nr: Option<usize>) -> Map<
    usize,
    nat,
> {
    match nr {
        Some(b) => bh.insert(s, bh[n]).insert(b, bh[b] + 1),
        None => bh.insert(s, bh[n]),
    }
}

/// A black node with one child leaves: the child is red, takes its place
/// and its colour, and all rules hold.
pub proof fn lemma_splice_colors(
    ls: Seq<Links>,
    root: Option<usize>,
    order: Seq<usize>,
    spans: Map<usize, Span>,
    bh: Map<usize, nat>,
    n: usize,
    c: usize,
    d: NodeDirection,
    ls2: Seq<Links>,
)
    requires
        shape_ok(ls, root, order, spans),
        colors_ok(ls, root, spans, bh),
        linked(spans, n),
        ls[n as int].child(d) == Some(c),
        ls[n as int].child(d.other()) is None,
        splice_links(ls, ls2, n, c),
    ensures
        colors_ok(
            ls2,
            transplanted_root(ls, root, c, n),
            closed_spans(spans, n, None),
            bh.insert(c, bh[n]),
        ),
{
    reveal(shape_ok);
    reveal(colors_ok);
    let spans2 = closed_spans(spans, n, None);
    let bh2 = bh.insert(c, bh[n]);
    assert(node_fits(ls, root, order, spans, n));
    assert(linked(spans, c));
    assert(node_fits(ls, root, order, spans, c));
    if let Some(q) = ls[n as int].parent {
        assert(linked(spans, q));
        assert(node_fits(ls, root, order, spans, q));
    }
    if let Some(r) = root {
        assert(linked(spans, r));
    }
    assert forall|h: usize| #[trigger] linked(spans2, h) implies balanced_at(ls2, bh2, h)
        && red_rule_at(ls2, h) by {
        assert(linked(spans, h));
        assert(node_fits(ls, root, order, spans, h));
    }
}

/// The only child `c` of `n` takes the place of `n`: all rules hold.
pub proof fn lemma_splice(
    ls: Seq<Links>,
    root: Option<usize>,
    order: Seq<usize>,
    spans: Map<usize, Span>,
    bh: Map<usize, nat>,
    n: usize,
    c: usize,
    d: NodeDirection,
)
    requires
        shape_ok(ls, root, order, spans),
        colors_ok(ls, root, spans, bh),
        linked(spans, n),
        ls[n as int].child(d) == Some(c),
        ls[n as int].child(d.other()) is None,
    ensures
        c < ls.len(),
        n < ls.len(),
        ls[n as int].parent matches Some(q) ==> q < ls.len(),
        removed(
            transplanted(ls, c, n),
            transplanted_root(ls, root, c, n),
            order.remove(spans[n].pos),
            closed_spans(spans, n, None),
            bh.insert(c, bh[n]),
            None,
            NodeDirection::LeftChild,
        ),
        untouched(ls, transplanted(ls, c, n), spans),
        transplanted(ls, c, n)[n as int] == ls[n as int],
{
    reveal(untouched);
    let ls1 = transplanted(ls, c, n);
    lemma_node_fits(ls, root, order, spans, n);
    lemma_node_fits(ls, root, order, spans, c);
    lemma_transplanted_at(ls, c, n);
    lemma_splice_shape(ls, root, order, spans, n, c, d, ls1);
    lemma_splice_colors(ls, root, order, spans, bh, n, c, d, ls1);
    lemma_splice_frame(ls, root, order, spans, n, c, d, ls1);
}

/// A leaf leaves the slot on side `d` of `q`: if it was red all rules hold,
/// if it was black that side of `q` is one black node short.
pub proof fn lemma_cut_colors(
    ls: Seq<Links>,
    root: Option<usize>,
    order: Seq<usize>,
    spans: Map<usize, Span>,
    bh: Map<usize, nat>,
    n: usize,
    q: usize,
    d: NodeDirection,
)
    requires
        shape_ok(ls, root, order, spans),
        colors_ok(ls, root, spans, bh),
        linked(spans, n),
        ls[n as int].left is None,
        ls[n as int].right is None,
        ls[n as int].parent == Some(q),
        d == direction_under(ls, n, q),
    ensures
        ({
            let ls2 = ls.update(q as int, ls[q as int].with_child(d, None));
            let spans2 = closed_spans(spans, n, None);
            &&& linked(spans2, q)
            &&& ls[n as int].color == NodeColor::Red ==> colors_ok(ls2, root, spans2, bh)
            &&& ls[n as int].color == NodeColor::Black ==> black_pending(
                ls2,
                root,
                spans2,
                bh,
                q,
                d,
            )
        }),
{
    reveal(shape_ok);
    reveal(colors_ok);
    reveal(black_pending);
    let ls2 = ls.update(q as int, ls[q as int].with_child(d, None));
    let spans2 = closed_spans(spans, n, None);
    assert(node_fits(ls, root, order, spans, n));
    assert(linked(spans, q));
    assert(node_fits(ls, root, order, spans, q));
    if let Some(r) = root {
        assert(linked(spans, r));
    }
    assert forall|h: usize| #[trigger] linked(spans2, h) implies red_rule_at(ls2, h) && (h != q
        ==> balanced_at(ls2, bh, h)) by {
        assert(linked(spans, h));
        assert(node_fits(ls, root, order, spans, h));
    }
}

/// The leaf `n` leaves the slot on side `d` of its parent `q`: all rules
/// hold, or that side of `q` is short.
pub proof fn lemma_cut(
    ls: Seq<Links>,
    root: Option<usize>,
    order: Seq<usize>,
    spans: Map<usize, Span>,
    bh: Map<usize, nat>,
    n: usize,
    q: usize,
    d: NodeDirection,
)
    requires
        shape_ok(ls, root, order, spans),
        colors_ok(ls, root, spans, bh),
        linked(spans, n),
        ls[n as int].left is None,
        ls[n as int].right is None,
        ls[n as int].parent == Some(q),
        d == direction_under(ls, n, q),
    ensures
        q < ls.len(),
        q != n,
        removed(
            ls.update(q as int, ls[q as int].with_child(d, None)),
            root,
            order.remove(spans[n].pos),
            closed_spans(spans, n, None),
            bh,
            if ls[n as int].color == NodeColor::Black {
                Some(q)
            } else {
                None
            },
            d,
        ),
        untouched(ls, ls.update(q as int, ls[q as int].with_child(d, None)), spans),
{
    reveal(untouched);
    lemma_node_fits(ls, root, order, spans, n);
    lemma_node_fits(ls, root, order, spans, q);
    lemma_cut_shape(ls, root, order, spans, n, q, d);
    lemma_cut_colors(ls, root, order, spans, bh, n, q, d);
}

/// The last node left: no node is linked, and no rule can be broken.
pub proof fn lemma_cut_root_colors(
    ls: Seq<Links>,
    root: Option<usize>,
    order: Seq<usize>,
    spans: Map<usize, Span>,
    bh: Map<usize, nat>,
    n: usize,
)
    requires
        shape_ok(ls, root, order, spans),
        linked(spans, n),
        order.len() == 1,
    ensures
        colors_ok(ls, None, closed_spans(spans, n, None), bh),
{
    reveal(shape_ok);
    reveal(colors_ok);
    let spans2 = closed_spans(spans, n, None);
    assert forall|h: usize| #[trigger] linked(spans2, h) implies balanced_at(ls, bh, h)
        && red_rule_at(ls, h) by {
        assert(linked(spans, h));
        assert(node_fits(ls, root, order, spans, h));
        assert(node_fits(ls, root, order, spans, n));
    }
}

/// The last node `n` leaves: the tree is empty.
pub proof fn lemma_cut_root(
    ls: Seq<Links>,
    root: Option<usize>,
    order: Seq<usize>,
    spans: Map<usize, Span>,
    bh: Map<usize, nat>,
    n: usize,
)
    requires
        shape_ok(ls, root, order, spans),
        linked(spans, n),
        ls[n as int].left is None,
        ls[n as int].right is None,
        ls[n as int].parent is None,
    ensures
        removed(
            ls,
            None,
            order.remove(spans[n].pos),
            closed_spans(spans, n, None),
            bh,
            None,
            NodeDirection::LeftChild,
        ),
{
    lemma_cut_root_shape(ls, root, order, spans, n);
    lemma_cut_root_colors(ls, root, order, spans, bh, n);
}

/// The successor, the right child of `n`, took the place of `n`: all rules
/// hold, or the right side of the successor is one black node short.
pub proof fn lemma_near_swap_colors(
    ls: Seq<Links>,
    root: Option<usize>,
    order: Seq<usize>,
    spans: Map<usize, Span>,
    bh: Map<usize, nat>,
    n: usize,
    s: usize,
    ls2: Seq<Links>,
)
    requires
        is_successor(ls, root, order, spans, n, s),
        colors_ok(ls, root, spans, bh),
        ls[n as int].right == Some(s),
        near_swap_links(ls, ls2, n, s),
    ensures
        ({
            let root2 = transplanted_root(ls, root, s, n);
            let spans2 = closed_spans(spans, n, Some(s));
            let bh2 = swap_heights(bh, n, s, ls[s as int].right);
            &&& linked(spans2, s)
            &&& !leaves_short(ls, s) ==> colors_ok(ls2, root2, spans2, bh2)
            &&& leaves_short(ls, s) ==> black_pending(
                ls2,
                root2,
                spans2,
                bh2,
                s,
                NodeDirection::RightChild,
            )
        }),
{
    reveal(shape_ok);
    reveal(colors_ok);
    reveal(black_pending);
    let root2 = transplanted_root(ls, root, s, n);
    let spans2 = closed_spans(spans, n, Some(s));
    let bh2 = swap_heights(bh, n, s, ls[s as int].right);
    lemma_successor_place(ls, root, order, spans, n, s);
    assert(node_fits(ls, root, order, spans, n));
    assert(node_fits(ls, root, order, spans, s));
    let l = ls[n as int].left->0;
    assert(node_fits(ls, root, order, spans, l));
    if let Some(q) = ls[n as int].parent {
        assert(node_fits(ls, root, order, spans, q));
    }
    if let Some(b) = ls[s as int].right {
        assert(node_fits(ls, root, order, spans, b));
    }
    if let Some(r) = root {
        assert(linked(spans, r));
    }
    assert forall|h: usize| #[trigger] linked(spans2, h) implies red_rule_at(ls2, h) && ((h != s
        || !leaves_short(ls, s)) ==> balanced_at(ls2, bh2, h)) by {
        assert(linked(spans, h));
        assert(node_fits(ls, root, order, spans, h));
    }
}

/// The successor, from deep in the right subtree of `n`, took the place of
/// `n`: all rules hold, or the left side of the node that was its parent is
/// one black node short.
pub proof fn lemma_far_swap_colors(
    ls: Seq<Links>,
    root: Option<usize>,
    order: Seq<usize>,
    spans: Map<usize, Span>,
    bh: Map<usize, nat>,
    n: usize,
    s: usize,
    ls2: Seq<Links>,
)
    requires
        is_successor(ls, root, order, spans, n, s),
        colors_ok(ls, root, spans, bh),
        ls[n as int].right != Some(s),
        far_swap_links(ls, ls2, n, s),
    ensures
        ({
            let root2 = transplanted_root(ls, root, s, n);
            let spans2 = closed_spans(spans, n, Some(s));
            let bh2 = swap_heights(bh, n, s, ls[s as int].right);
            let f = ls[s as int].parent->0;
            &&& linked(spans2, f)
            &&& !leaves_short(ls, s) ==> colors_ok(ls2, root2, spans2, bh2)
            &&& leaves_short(ls, s) ==> black_pending(
                ls2,
                root2,
                spans2,
                bh2,
                f,
                NodeDirection::LeftChild,
            )
        }),
{
    let root2 = transplanted_root(ls, root, s, n);
    let spans2 = closed_spans(spans, n, Some(s));
    let nr = ls[s as int].right;
    let top = ls[n as int].parent;
    let bh2 = swap_heights(bh, n, s, nr);
    lemma_successor_place(ls, root, order, spans, n, s);
    lemma_node_fits(ls, root, order, spans, n);
    lemma_node_fits(ls, root, order, spans, s);
    let l = ls[n as int].left->0;
    let r = ls[n as int].right->0;
    let f = ls[s as int].parent->0;
    lemma_node_fits(ls, root, order, spans, l);
    lemma_node_fits(ls, root, order, spans, r);
    lemma_node_fits(ls, root, order, spans, f);
    if let Some(q) = top {
        lemma_node_fits(ls, root, order, spans, q);
    }
    if let Some(b) = nr {
        lemma_node_fits(ls, root, order, spans, b);
    }
    lemma_root_fits(ls, root, order, spans);
    reveal(colors_ok);
    reveal(black_pending);
    assert(balanced_at(ls, bh, n) && red_rule_at(ls, n));
    assert(balanced_at(ls, bh, s) && red_rule_at(ls, s));
    assert(balanced_at(ls, bh, f) && red_rule_at(ls, f));
    assert forall|h: usize| #[trigger] linked(spans2, h) implies red_rule_at(ls2, h) && ((h != f
        || !leaves_short(ls, s)) ==> balanced_at(ls2, bh2, h)) by {
        assert(linked(spans, h));
        lemma_node_fits(ls, root, order, spans, h);
        assert(balanced_at(ls, bh, h) && red_rule_at(ls, h));
        if h == s {
            assert(red_rule_at(ls2, h) && balanced_at(ls2, bh2, h));
        } else if h == f {
            assert(red_rule_at(ls2, h));
            assert(!leaves_short(ls, s) ==> balanced_at(ls2, bh2, h));
        } else if h == r {
            assert(red_rule_at(ls2, h) && balanced_at(ls2, bh2, h));
        } else if h == l {
            assert(red_rule_at(ls2, h) && balanced_at(ls2, bh2, h));
        } else if Some(h) == nr {
            assert(red_rule_at(ls2, h) && balanced_at(ls2, bh2, h));
        } else if Some(h) == top {
            assert(red_rule_at(ls2, h) && balanced_at(ls2, bh2, h));
        } else {
            assert(ls2[h as int] == ls[h as int]);
            assert(bh_of(bh2, ls[h as int].left) == bh_of(bh, ls[h as int].left));
            assert(bh_of(bh2, ls[h as int].right) == bh_of(bh, ls[h as int].right));
            assert(balanced_at(ls2, bh2, h));
            assert(red_rule_at(ls2, h));
        }
    }
}

/// The successor `s` takes the place of `n`: all rules hold, or the place
/// that `s` left is short.
pub proof fn lemma_swap(
    ls: Seq<Links>,
    root: Option<usize>,
    order: Seq<usize>,
    spans: Map<usize, Span>,
    bh: Map<usize, nat>,
    n: usize,
    s: usize,
)
    requires
        is_successor(ls, root, order, spans, n, s),
        colors_ok(ls, root, spans, bh),
    ensures
        removed(
            swapped(ls, n, s),
            transplanted_root(ls, root, s, n),
            order.remove(spans[n].pos),
            closed_spans(spans, n, Some(s)),
            swap_heights(bh, n, s, ls[s as int].right),
            swap_fix(ls, n, s),
            swap_side(ls, n, s),
        ),
        untouched(ls, swapped(ls, n, s), spans),
        swapped(ls, n, s)[n as int] == ls[n as int],
{
    reveal(untouched);
    let ls1 = swapped(ls, n, s);
    lemma_successor_place(ls, root, order, spans, n, s);
    if ls[n as int].right == Some(s) {
        lemma_near_swapped_at(ls, root, order, spans, n, s);
        lemma_near_swap_shape(ls, root, order, spans, n, s, ls1);
        lemma_near_swap_colors(ls, root, order, spans, bh, n, s, ls1);
    } else {
        lemma_far_swapped_at(ls, root, order, spans, n, s);
        lemma_far_swap_shape(ls, root, order, spans, n, s, ls1);
        lemma_far_swap_colors(ls, root, order, spans, bh, n, s, ls1);
    }
    lemma_swap_frame(ls, root, order, spans, n, s, ls1);
}

/// A node that the tree does not link is reset: the tree stays as it is,
/// with a black height and a root that is not red.
pub proof fn lemma_reset(
    ls: Seq<Links>,
    root: Option<usize>,
    order: Seq<usize>,
    spans: Map<usize, Span>,
    bh: Map<usize, nat>,
    n: usize,
)
    requires
        shape_ok(ls, root, order, spans),
        colors_ok(ls, root, spans, bh),
        !linked(spans, n),
        n < ls.len(),
    ensures
        shape_ok(ls.update(n as int, Links::unlinked()), root, order, spans),
        crate::color::black_height(ls.update(n as int, Links::unlinked()), spans, root) is Some,
        !red_at(ls.update(n as int, Links::unlinked()), root),
{
    let ls2 = ls.update(n as int, Links::unlinked());
    lemma_shape_frame(ls, root, order, spans, ls2);
    lemma_colors_frame(ls, root, order, spans, bh, ls2);
    lemma_colors_valid(ls2, root, order, spans, bh);
}

/// Where one side of `q` is short, the other side holds a sibling; a red
/// sibling has two black children below a black `q`.
pub proof fn lemma_sibling(
    ls: Seq<Links>,
    root: Option<usize>,
    order: Seq<usize>,
    spans: Map<usize, Span>,
    bh: Map<usize, nat>,
    q: usize,
    d: NodeDirection,
)
    requires
        shape_ok(ls, root, order, spans),
        linked(spans, q),
        black_pending(ls, root, spans, bh, q, d),
    ensures
        q < ls.len(),
        ls[q as int].parent matches Some(t) ==> t < ls.len() && linked(spans, t),
        ls[q as int].parent is None <==> root == Some(q),
        ls[q as int].child(d.other()) matches Some(s) && {
            &&& s < ls.len()
            &&& linked(spans, s)
            &&& s != q
            &&& ls[s as int].parent == Some(q)
            &&& bh[s] >= 1
            &&& ls[s as int].left matches Some(a) ==> a < ls.len() && linked(spans, a)
                && ls[a as int].parent == Some(s)
            &&& ls[s as int].right matches Some(b) ==> b < ls.len() && linked(spans, b)
                && ls[b as int].parent == Some(s)
            &&& ls[s as int].color == NodeColor::Red ==> {
                &&& ls[q as int].color == NodeColor::Black
                &&& ls[s as int].child(d) matches Some(a) && ls[a as int].color
                    == NodeColor::Black
                &&& ls[s as int].child(d.other()) matches Some(b) && ls[b as int].color
                    == NodeColor::Black
            }
        },
{
    reveal(shape_ok);
    reveal(black_pending);
    assert(node_fits(ls, root, order, spans, q));
    let s = ls[q as int].child(d.other())->0;
    assert(linked(spans, s));
    assert(node_fits(ls, root, order, spans, s));
    if let Some(t) = ls[q as int].parent {
        assert(linked(spans, t));
    }
    if let Some(r) = root {
        assert(linked(spans, r));
    }
    if let Some(a) = ls[s as int].left {
        assert(linked(spans, a));
    }
    if let Some(b) = ls[s as int].right {
        assert(linked(spans, b));
    }
}

/// A red sibling `s` was rotated above `q`, black above a red `q`: the same
/// side of `q` is still short, and its sibling is black now.
pub proof fn lemma_red_sibling(
    ls: Seq<Links>,
    root: Option<usize>,
    order: Seq<usize>,
    spans: Map<usize, Span>,
    bh: Map<usize, nat>,
    q: usize,
    d: NodeDirection,
    s: usize,
    ls2: Seq<Links>,
)
    requires
        shape_ok(ls, root, order, spans),
        linked(spans, q),
        black_pending(ls, root, spans, bh, q, d),
        ls[q as int].child(d.other()) == Some(s),
        ls[s as int].color == NodeColor::Red,
        rotation_links(ls, ls2, s, q, d.other()),
        ls2[s as int].color == ls[q as int].color,
        ls2[q as int].color == NodeColor::Red,
    ensures
        ({
            let root2 = transplanted_root(ls, root, s, q);
            let spans2 = promote_spans(spans, s, q, d.other());
            &&& shape_ok(ls2, root2, order, spans2)
            &&& linked(spans2, q)
            &&& spans2.dom() == spans.dom()
            &&& black_pending(ls2, root2, spans2, straightened_heights(bh, s, q), q, d)
            &&& ls2[q as int].child(d.other()) matches Some(t) && ls2[t as int].color
                == NodeColor::Black
            &&& ls2[q as int].color == NodeColor::Red
            &&& root2 != Some(q)
            &&& forall|h: usize|
                h < ls.len() && !linked(spans, h) ==> #[trigger] ls2[h as int] == ls[h as int]
        }),
{
    reveal(shape_ok);
    reveal(black_pending);
    let root2 = transplanted_root(ls, root, s, q);
    let spans2 = promote_spans(spans, s, q, d.other());
    let bh2 = straightened_heights(bh, s, q);
    lemma_sibling(ls, root, order, spans, bh, q, d);
    assert(node_fits(ls, root, order, spans, q));
    assert(node_fits(ls, root, order, spans, s));
    lemma_rotation_shape(ls, root, order, spans, s, q, d.other(), ls2);
    assert(spans2.dom() =~= spans.dom());
    if let Some(t) = ls[q as int].parent {
        assert(node_fits(ls, root, order, spans, t));
    }
    if let Some(a) = ls[s as int].left {
        assert(node_fits(ls, root, order, spans, a));
    }
    if let Some(b) = ls[s as int].right {
        assert(node_fits(ls, root, order, spans, b));
    }
    assert forall|h: usize| #[trigger] linked(spans2, h) implies red_rule_at(ls2, h) && (h != q
        ==> balanced_at(ls2, bh2, h)) by {
        assert(linked(spans, h));
        assert(node_fits(ls, root, order, spans, h));
    }
}

/// The red sibling `s` of the short side of `q` can be rotated above `q`,
/// and after that the same side of `q` is short below a black sibling.
pub proof fn lemma_lift_red_sibling(
    ls: Seq<Links>,
    root: Option<usize>,
    order: Seq<usize>,
    spans: Map<usize, Span>,
    bh: Map<usize, nat>,
    q: usize,
    d: NodeDirection,
    s: usize,
)
    requires
        shape_ok(ls, root, order, spans),
        linked(spans, q),
        black_pending(ls, root, spans, bh, q, d),
        ls[q as int].child(d.other()) == Some(s),
        ls[s as int].color == NodeColor::Red,
    ensures
        promote_ready(ls, s, q, d.other()),
        ({
            let ls2 = promoted(ls, s, q, d.other(), NodeColor::Red);
            let root2 = transplanted_root(ls, root, s, q);
            let spans2 = promote_spans(spans, s, q, d.other());
            &&& shape_ok(ls2, root2, order, spans2)
            &&& linked(spans2, q)
            &&& spans2.dom() == spans.dom()
            &&& black_pending(ls2, root2, spans2, straightened_heights(bh, s, q), q, d)
            &&& untouched(ls, ls2, spans)
            &&& ls2[q as int].child(d.other()) matches Some(t) && ls2[t as int].color
                == NodeColor::Black
            &&& ls2[q as int].color == NodeColor::Red
        }),
{
    reveal(untouched);
    let ls2 = promoted(ls, s, q, d.other(), NodeColor::Red);
    lemma_sibling(ls, root, order, spans, bh, q, d);
    lemma_promote_ready(ls, root, order, spans, s, q, d.other(), NodeColor::Red);
    lemma_red_sibling(ls, root, order, spans, bh, q, d, s, ls2);
}

/// The black heights after a black sibling `s` below `q` was made red.
pub open spec fn pushed_heights(bh: Map<usize, nat>, s: usize, q: usize) -> Map<usize, nat> {
    bh.insert(s, (bh[s] - 1) as nat).insert(q, bh[s])
}

/// A black sibling `s` with no red child was made red, and `q` is red or
/// the root: all rules hold once `q` is black.
pub proof fn lemma_push_up_ends(
    ls: Seq<Links>,
    root: Option<usize>,
    order: Seq<usize>,
    spans: Map<usize, Span>,
    bh: Map<usize, nat>,
    q: usize,
    d: NodeDirection,
    s: usize,
)
    requires
        shape_ok(ls, root, order, spans),
        linked(spans, q),
        black_pending(ls, root, spans, bh, q, d),
        ls[q as int].child(d.other()) == Some(s),
        ls[s as int].color == NodeColor::Black,
        !red_at(ls, ls[s as int].left),
        !red_at(ls, ls[s as int].right),
        root == Some(q) || ls[q as int].color == NodeColor::Red,
    ensures
        ({
            let ls3 = recolored(recolored(ls, s, NodeColor::Red), q, NodeColor::Black);
            &&& shape_ok(recolored(ls, s, NodeColor::Red), root, order, spans)
            &&& shape_ok(ls3, root, order, spans)
            &&& colors_ok(ls3, root, spans, pushed_heights(bh, s, q))
        }),
{
    reveal(shape_ok);
    reveal(colors_ok);
    reveal(black_pending);
    let ls2 = recolored(ls, s, NodeColor::Red);
    let ls3 = recolored(ls2, q, NodeColor::Black);
    let bh2 = pushed_heights(bh, s, q);
    lemma_sibling(ls, root, order, spans, bh, q, d);
    assert(node_fits(ls, root, order, spans, q));
    assert(node_fits(ls, root, order, spans, s));
    lemma_same_wiring(ls, root, order, spans, ls2);
    lemma_same_wiring(ls, root, order, spans, ls3);
    if let Some(r) = root {
        assert(linked(spans, r));
        assert(node_fits(ls, root, order, spans, r));
    }
    let t = ls[q as int].parent;
    if let Some(t) = t {
        assert(node_fits(ls, root, order, spans, t));
    }
    assert forall|h: usize| #[trigger] linked(spans, h) implies balanced_at(ls3, bh2, h)
        && red_rule_at(ls3, h) by {
        assert(node_fits(ls, root, order, spans, h));
        if h == s {
            assert(balanced_at(ls3, bh2, h) && red_rule_at(ls3, h));
        } else if h == q {
            assert(balanced_at(ls3, bh2, h) && red_rule_at(ls3, h));
        } else if Some(h) == t {
            assert(balanced_at(ls3, bh2, h) && red_rule_at(ls3, h));
        } else {
            assert(ls3[h as int] == ls[h as int]);
            assert(balanced_at(ls, bh, h));
            assert(bh_of(bh2, ls[h as int].left) == bh_of(bh, ls[h as int].left));
            assert(bh_of(bh2, ls[h as int].right) == bh_of(bh, ls[h as int].right));
            assert(balanced_at(ls3, bh2, h));
            assert(red_rule_at(ls3, h));
        }
    }
}

/// A black sibling `s` with no red child was made red, and `q` is black and
/// not the root: the side of the parent of `q` on which `q` hangs is short.
pub proof fn lemma_push_up_goes_on(
    ls: Seq<Links>,
    root: Option<usize>,
    order: Seq<usize>,
    spans: Map<usize, Span>,
    bh: Map<usize, nat>,
    q: usize,
    d: NodeDirection,
    s: usize,
)
    requires
        shape_ok(ls, root, order, spans),
        linked(spans, q),
        black_pending(ls, root, spans, bh, q, d),
        ls[q as int].child(d.other()) == Some(s),
        ls[s as int].color == NodeColor::Black,
        !red_at(ls, ls[s as int].left),
        !red_at(ls, ls[s as int].right),
        root != Some(q),
        ls[q as int].color == NodeColor::Black,
    ensures
        ({
            let ls2 = recolored(ls, s, NodeColor::Red);
            &&& shape_ok(ls2, root, order, spans)
            &&& ls[q as int].parent matches Some(t) && {
                &&& linked(spans, t)
                &&& t < ls.len()
                &&& black_pending(
                    ls2,
                    root,
                    spans,
                    pushed_heights(bh, s, q),
                    t,
                    direction_under(ls2, q, t),
                )
                &&& spans[t].hi - spans[t].lo > spans[q].hi - spans[q].lo
                &&& spans[t].hi - spans[t].lo <= order.len()
            }
        }),
{
    reveal(shape_ok);
    reveal(black_pending);
    let ls2 = recolored(ls, s, NodeColor::Red);
    let bh2 = pushed_heights(bh, s, q);
    lemma_sibling(ls, root, order, spans, bh, q, d);
    assert(node_fits(ls, root, order, spans, q));
    assert(node_fits(ls, root, order, spans, s));
    lemma_same_wiring(ls, root, order, spans, ls2);
    if let Some(r) = root {
        assert(linked(spans, r));
        assert(node_fits(ls, root, order, spans, r));
    }
    let t = ls[q as int].parent->0;
    assert(node_fits(ls, root, order, spans, t));
    let e = direction_under(ls2, q, t);
    assert(ls2[t as int].child(e) == Some(q));
    assert(short_at(ls2, bh2, t, e)) by {
        assert(balanced_at(ls, bh, t));
        let u = ls[t as int].child(e.other());
        if let Some(u) = u {
            assert(linked(spans, u));
            assert(node_fits(ls, root, order, spans, u));
            assert(u != s && u != q);
        }
    }
    assert forall|h: usize| #[trigger] linked(spans, h) implies red_rule_at(ls2, h) && (h != t
        ==> balanced_at(ls2, bh2, h)) by {
        assert(node_fits(ls, root, order, spans, h));
        if h == s {
            assert(red_rule_at(ls2, h) && balanced_at(ls2, bh2, h));
        } else if h == q {
            assert(red_rule_at(ls2, h) && balanced_at(ls2, bh2, h));
        } else if h == t {
            assert(red_rule_at(ls2, h));
        } else {
            assert(ls2[h as int] == ls[h as int]);
            assert(balanced_at(ls, bh, h));
            assert(bh_of(bh2, ls[h as int].left) == bh_of(bh, ls[h as int].left));
            assert(bh_of(bh2, ls[h as int].right) == bh_of(bh, ls[h as int].right));
            assert(balanced_at(ls2, bh2, h));
            assert(red_rule_at(ls2, h));
        }
    }
}

/// Below the black sibling `s` the far child is not red and the near child
/// `c` is: `c` was rotated above `s`, black above a red `s`. The same side
/// of `q` is still short; its sibling is `c`, black with the red far child
/// `s`.
pub proof fn lemma_near_nephew(
    ls: Seq<Links>,
    root: Option<usize>,
    order: Seq<usize>,
    spans: Map<usize, Span>,
    bh: Map<usize, nat>,
    q: usize,
    d: NodeDirection,
    s: usize,
    c: usize,
    ls2: Seq<Links>,
)
    requires
        shape_ok(ls, root, order, spans),
        linked(spans, q),
        black_pending(ls, root, spans, bh, q, d),
        ls[q as int].child(d.other()) == Some(s),
        ls[s as int].color == NodeColor::Black,
        ls[s as int].child(d) == Some(c),
        ls[c as int].color == NodeColor::Red,
        !red_at(ls, ls[s as int].child(d.other())),
        rotation_links(ls, ls2, c, s, d),
        ls2[c as int].color == NodeColor::Black,
        ls2[s as int].color == NodeColor::Red,
    ensures
        ({
            let spans2 = promote_spans(spans, c, s, d);
            &&& shape_ok(ls2, root, order, spans2)
            &&& linked(spans2, q)
            &&& spans2.dom() == spans.dom()
            &&& black_pending(ls2, root, spans2, straightened_heights(bh, c, s), q, d)
            &&& ls2[q as int].child(d.other()) == Some(c)
            &&& ls2[s as int].parent == Some(c)
            &&& ls2[c as int].child(d.other()) == Some(s)
            &&& ls2[q as int].color == ls[q as int].color
            &&& ls2[q as int].parent == ls[q as int].parent
            &&& forall|h: usize|
                h < ls.len() && !linked(spans, h) ==> #[trigger] ls2[h as int] == ls[h as int]
        }),
{
    reveal(shape_ok);
    reveal(black_pending);
    let spans2 = promote_spans(spans, c, s, d);
    let bh2 = straightened_heights(bh, c, s);
    lemma_sibling(ls, root, order, spans, bh, q, d);
    assert(node_fits(ls, root, order, spans, q));
    assert(node_fits(ls, root, order, spans, s));
    assert(linked(spans, c));
    assert(node_fits(ls, root, order, spans, c));
    lemma_rotation_shape(ls, root, order, spans, c, s, d, ls2);
    assert(spans2.dom() =~= spans.dom());
    if let Some(a) = ls[c as int].left {
        assert(linked(spans, a));
        assert(node_fits(ls, root, order, spans, a));
    }
    if let Some(b) = ls[c as int].right {
        assert(linked(spans, b));
        assert(node_fits(ls, root, order, spans, b));
    }
    if let Some(b) = ls[s as int].child(d.other()) {
        assert(node_fits(ls, root, order, spans, b));
    }
    if let Some(r) = root {
        assert(linked(spans, r));
    }
    let inner = ls[c as int].child(d.other());
    assert forall|h: usize| #[trigger] linked(spans2, h) implies red_rule_at(ls2, h) && (h != q
        ==> balanced_at(ls2, bh2, h)) by {
        assert(linked(spans, h));
        assert(node_fits(ls, root, order, spans, h));
        if h == s {
            assert(red_rule_at(ls2, h) && balanced_at(ls2, bh2, h));
        } else if h == c {
            assert(red_rule_at(ls2, h) && balanced_at(ls2, bh2, h));
        } else if h == q {
            assert(red_rule_at(ls2, h));
        } else if Some(h) == inner {
            assert(red_rule_at(ls2, h) && balanced_at(ls2, bh2, h));
        } else {
            assert(ls2[h as int] == ls[h as int]);
            assert(balanced_at(ls, bh, h));
            assert(bh_of(bh2, ls[h as int].left) == bh_of(bh, ls[h as int].left));
            assert(bh_of(bh2, ls[h as int].right) == bh_of(bh, ls[h as int].right));
            assert(balanced_at(ls2, bh2, h));
            assert(red_rule_at(ls2, h));
        }
    }
}

/// The black heights after the black sibling `s` was rotated above `q` and
/// its far child `fc` was made black.
pub open spec fn settled_heights(bh: Map<usize, nat>, s: usize, q: usize, fc: usize) -> Map<
    usize,
    nat,
> {
    straightened_heights(bh, s, q).insert(fc, bh[fc] + 1)
}

/// The black sibling `s` has a red far child `fc`: `s` was rotated above
/// `q`, with the colour of `q` above a black `q`, and `fc` was made black.
/// All rules hold.
pub proof fn lemma_far_nephew(
    ls: Seq<Links>,
    root: Option<usize>,
    order: Seq<usize>,
    spans: Map<usize, Span>,
    bh: Map<usize, nat>,
    q: usize,
    d: NodeDirection,
    s: usize,
    fc: usize,
    ls2: Seq<Links>,
)
    requires
        shape_ok(ls, root, order, spans),
        linked(spans, q),
        black_pending(ls, root, spans, bh, q, d),
        ls[q as int].child(d.other()) == Some(s),
        ls[s as int].color == NodeColor::Black,
        ls[s as int].child(d.other()) == Some(fc),
        ls[fc as int].color == NodeColor::Red,
        rotation_links(ls, ls2, s, q, d.other()),
        ls2[s as int].color == ls[q as int].color,
        ls2[q as int].color == NodeColor::Black,
    ensures
        ({
            let root2 = transplanted_root(ls, root, s, q);
            let spans2 = promote_spans(spans, s, q, d.other());
            let ls3 = recolored(ls2, fc, NodeColor::Black);
            &&& shape_ok(ls3, root2, order, spans2)
            &&& spans2.dom() == spans.dom()
            &&& colors_ok(ls3, root2, spans2, settled_heights(bh, s, q, fc))
            &&& ls2[s as int].child(d.other()) == Some(fc)
            &&& root2 matches Some(r) && r < ls.len() && linked(spans2, r) && ls3[r as int].color
                == NodeColor::Black
            &&& forall|h: usize|
                h < ls.len() && !linked(spans, h) ==> #[trigger] ls3[h as int] == ls[h as int]
        }),
{
    let root2 = transplanted_root(ls, root, s, q);
    let spans2 = promote_spans(spans, s, q, d.other());
    let ls3 = recolored(ls2, fc, NodeColor::Black);
    let bh3 = settled_heights(bh, s, q, fc);
    let top = ls[q as int].parent;
    let near = ls[s as int].child(d);
    lemma_sibling(ls, root, order, spans, bh, q, d);
    lemma_node_fits(ls, root, order, spans, q);
    lemma_node_fits(ls, root, order, spans, s);
    lemma_node_fits(ls, root, order, spans, fc);
    lemma_root_fits(ls, root, order, spans);
    assert(spans2.dom() =~= spans.dom());
    assert(shape_ok(ls3, root2, order, spans2)) by {
        lemma_rotation_shape(ls, root, order, spans, s, q, d.other(), ls2);
        lemma_same_wiring(ls2, root2, order, spans2, ls3);
    }
    if let Some(t) = top {
        lemma_node_fits(ls, root, order, spans, t);
    }
    if let Some(a) = near {
        lemma_node_fits(ls, root, order, spans, a);
    }
    assert(colors_ok(ls3, root2, spans2, bh3)) by {
        reveal(colors_ok);
        reveal(black_pending);
        assert forall|h: usize| #[trigger] linked(spans2, h) implies balanced_at(ls3, bh3, h)
            && red_rule_at(ls3, h) by {
            assert(linked(spans, h));
            lemma_node_fits(ls, root, order, spans, h);
            if h == s {
                assert(balanced_at(ls3, bh3, h) && red_rule_at(ls3, h));
            } else if h == q {
                assert(balanced_at(ls3, bh3, h) && red_rule_at(ls3, h));
            } else if h == fc {
                assert(balanced_at(ls3, bh3, h) && red_rule_at(ls3, h));
            } else if Some(h) == top {
                assert(balanced_at(ls3, bh3, h) && red_rule_at(ls3, h));
            } else if Some(h) == near {
                assert(balanced_at(ls3, bh3, h) && red_rule_at(ls3, h));
            } else {
                assert(ls3[h as int] == ls[h as int]);
                assert(balanced_at(ls, bh, h));
                assert(bh_of(bh3, ls[h as int].left) == bh_of(bh, ls[h as int].left));
                assert(bh_of(bh3, ls[h as int].right) == bh_of(bh, ls[h as int].right));
                assert(balanced_at(ls3, bh3, h));
                assert(red_rule_at(ls3, h));
            }
        }
    }
    assert(!red_at(ls3, root2)) by {
        reveal(colors_ok);
    }
}

/// The spans once the far child of the sibling of the short side `d` is
/// red.
pub open spec fn far_ready_spans(
    ls: Seq<Links>,
    spans: Map<usize, Span>,
    d: NodeDirection,
    s: usize,
) -> Map<usize, Span> {
    if near_first(ls, d, s) {
        promote_spans(spans, ls[s as int].child(d)->0, s, d)
    } else {
        spans
    }
}

/// The spans after the repair below `q` ended.
pub open spec fn resolved_spans(
    ls: Seq<Links>,
    spans: Map<usize, Span>,
    q: usize,
    d: NodeDirection,
    s: usize,
) -> Map<usize, Span> {
    promote_spans(far_ready_spans(ls, spans, d, s), far_ready_sibling(ls, d, s), q, d.other())
}

/// The black heights after the repair below `q` ended.
pub open spec fn resolved_heights(
    ls: Seq<Links>,
    bh: Map<usize, nat>,
    q: usize,
    d: NodeDirection,
    s: usize,
) -> Map<usize, nat> {
    let t = far_ready_sibling(ls, d, s);
    let bh1 = if near_first(ls, d, s) {
        straightened_heights(bh, t, s)
    } else {
        bh
    };
    settled_heights(bh1, t, q, far_ready(ls, d, s)[t as int].child(d.other())->0)
}

/// Every handle that the primitives read while they end the repair below
/// `q` names a node.
pub open spec fn resolve_ready(ls: Seq<Links>, q: usize, d: NodeDirection, s: usize) -> bool {
    let t = far_ready_sibling(ls, d, s);
    let ln = far_ready(ls, d, s);
    &&& near_first(ls, d, s) ==> ls[s as int].child(d) is Some && promote_ready(ls, t, s, d)
        && ln[s as int].parent == Some(t)
    &&& ln.len() == ls.len()
    &&& promote_ready(ln, t, q, d.other())
    &&& resolved_rotated(ls, q, d, s).len() == ls.len()
    &&& resolved_rotated(ls, q, d, s)[t as int].child(d.other()) matches Some(x) && x < ls.len()
}

/// The black sibling `s` of the short side of `q` has a red child: the
/// rotations that end the repair can be made, and after them all rules
/// hold.
pub proof fn lemma_resolve(
    ls: Seq<Links>,
    root: Option<usize>,
    order: Seq<usize>,
    spans: Map<usize, Span>,
    bh: Map<usize, nat>,
    q: usize,
    d: NodeDirection,
    s: usize,
)
    requires
        shape_ok(ls, root, order, spans),
        linked(spans, q),
        black_pending(ls, root, spans, bh, q, d),
        ls[q as int].child(d.other()) == Some(s),
        ls[s as int].color == NodeColor::Black,
        red_at(ls, ls[s as int].left) || red_at(ls, ls[s as int].right),
    ensures
        resolve_ready(ls, q, d, s),
        ({
            let t = far_ready_sibling(ls, d, s);
            let ls3 = resolved(ls, q, d, s);
            let root3 = transplanted_root(far_ready(ls, d, s), root, t, q);
            let spans3 = resolved_spans(ls, spans, q, d, s);
            &&& shape_ok(ls3, root3, order, spans3)
            &&& spans3.dom() == spans.dom()
            &&& colors_ok(ls3, root3, spans3, resolved_heights(ls, bh, q, d, s))
            &&& untouched(ls, ls3, spans)
            &&& root3 matches Some(r) && r < ls.len() && linked(spans3, r) && ls3[r as int].color
                == NodeColor::Black
        }),
{
    reveal(untouched);
    let sd = d.other();
    let t = far_ready_sibling(ls, d, s);
    let ln = far_ready(ls, d, s);
    let spans_n = far_ready_spans(ls, spans, d, s);
    lemma_sibling(ls, root, order, spans, bh, q, d);
    let bh_n = if near_first(ls, d, s) {
        straightened_heights(bh, t, s)
    } else {
        bh
    };
    if near_first(ls, d, s) {
        lemma_promote_ready(ls, root, order, spans, t, s, d, NodeColor::Red);
        lemma_near_nephew(ls, root, order, spans, bh, q, d, s, t, ln);
        lemma_sibling(ln, root, order, spans_n, bh_n, q, d);
    }
    let fc = ln[t as int].child(sd)->0;
    let lr = resolved_rotated(ls, q, d, s);
    lemma_promote_ready(ln, root, order, spans_n, t, q, sd, NodeColor::Black);
    lemma_far_nephew(ln, root, order, spans_n, bh_n, q, d, t, fc, lr);
}

} // verus!
