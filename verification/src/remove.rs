//! How the shape and the order change when a node leaves the tree.
//!
//! A node with at most one child is replaced by that child, or by nothing.
//! A node with two children is replaced by its successor in the order, the
//! leftmost node of its right subtree, whose own place is taken by its right
//! child, if it has one.

use crate::node::{
    Links, NodeColor, NodeDirection, attached, attached_colored, direction_under, transplanted,
    transplanted_root,
};
use crate::shape::{Span, child_fits, lemma_node_fits, linked, node_fits, recolored, shape_ok};
use vstd::prelude::*;

verus! {

/// A position after the element at `k` left the order.
pub open spec fn closed(v: int, k: int) -> int {
    if v > k {
        v - 1
    } else {
        v
    }
}

/// The spans after the node `n` left the order. If `n` had two children,
/// `succ` is its successor, which gets the span of `n`.
pub open spec fn closed_spans(spans: Map<usize, Span>, n: usize, succ: Option<usize>) -> Map<
    usize,
    Span,
> {
    let k = spans[n].pos;
    Map::new(
        |h: usize| spans.dom().contains(h) && h != n,
        |h: usize|
            if Some(h) == succ {
                Span { lo: spans[n].lo, pos: k, hi: spans[n].hi - 1 }
            } else {
                Span {
                    lo: closed(
                        spans[h].lo,
                        if succ is Some {
                            k + 1
                        } else {
                            k
                        },
                    ),
                    pos: closed(spans[h].pos, k),
                    hi: closed(spans[h].hi, k),
                }
            },
    )
}

/// `ls2` is `ls` after `c` took the place of `n`, in the links of `c` and in
/// the slot above `n`.
pub open spec fn splice_links(ls: Seq<Links>, ls2: Seq<Links>, n: usize, c: usize) -> bool {
    let top = ls[n as int].parent;
    &&& ls2.len() == ls.len()
    &&& forall|h: usize| h < ls.len() && h != c && Some(h) != top
        ==> #[trigger] ls2[h as int] == ls[h as int]
    &&& ls2[c as int] == (Links { parent: top, color: ls[n as int].color, ..ls[c as int] })
    &&& top matches Some(q) ==> ls2[q as int] == ls[q as int].with_child(
        direction_under(ls, n, q),
        Some(c),
    )
}

/// What `transplanted` writes, link by link.
pub proof fn lemma_transplanted_at(ls: Seq<Links>, c: usize, n: usize)
    requires
        c < ls.len(),
        n < ls.len(),
        ls[n as int].parent matches Some(q) ==> q < ls.len() && q != c,
    ensures
        splice_links(ls, transplanted(ls, c, n), n, c),
{
    reveal(transplanted);
}

/// The order loses exactly the element at the position of `n`, and the
/// positions of the others in it are as `closed_spans` says.
pub proof fn lemma_closed_order(
    ls: Seq<Links>,
    root: Option<usize>,
    order: Seq<usize>,
    spans: Map<usize, Span>,
    n: usize,
    succ: Option<usize>,
)
    requires
        shape_ok(ls, root, order, spans),
        linked(spans, n),
        succ matches Some(s) ==> linked(spans, s) && spans[s].pos == spans[n].pos + 1,
    ensures
        ({
            let order2 = order.remove(spans[n].pos);
            let spans2 = closed_spans(spans, n, succ);
            &&& order2.len() == order.len() - 1
            &&& forall|p: int|
                0 <= p < order2.len() ==> spans2.dom().contains(#[trigger] order2[p])
                    && spans2[order2[p]].pos == p
            &&& forall|h: usize| #[trigger]
                linked(spans2, h) ==> order2[spans2[h].pos] == h && 0 <= spans2[h].pos
                    < order2.len()
        }),
{
    reveal(shape_ok);
    let k = spans[n].pos;
    let order2 = order.remove(k);
    let spans2 = closed_spans(spans, n, succ);
    assert(node_fits(ls, root, order, spans, n));
    order.remove_ensures(k);
    assert forall|p: int| 0 <= p < order2.len() implies spans2.dom().contains(
        #[trigger] order2[p],
    ) && spans2[order2[p]].pos == p by {
        if p < k {
            assert(order2[p] == order[p]);
        } else {
            assert(order2[p] == order[p + 1]);
        }
    }
    assert forall|h: usize| #[trigger] linked(spans2, h) implies order2[spans2[h].pos] == h && 0
        <= spans2[h].pos < order2.len() by {
        assert(linked(spans, h));
        assert(node_fits(ls, root, order, spans, h));
    }
}

/// A node with one child leaves; the child takes its place.
pub proof fn lemma_splice_shape(
    ls: Seq<Links>,
    root: Option<usize>,
    order: Seq<usize>,
    spans: Map<usize, Span>,
    n: usize,
    c: usize,
    d: NodeDirection,
    ls2: Seq<Links>,
)
    requires
        shape_ok(ls, root, order, spans),
        linked(spans, n),
        ls[n as int].child(d) == Some(c),
        ls[n as int].child(d.other()) is None,
        splice_links(ls, ls2, n, c),
    ensures
        shape_ok(
            ls2,
            transplanted_root(ls, root, c, n),
            order.remove(spans[n].pos),
            closed_spans(spans, n, None),
        ),
{
    reveal(shape_ok);
    let root2 = transplanted_root(ls, root, c, n);
    let order2 = order.remove(spans[n].pos);
    let spans2 = closed_spans(spans, n, None);
    lemma_closed_order(ls, root, order, spans, n, None);
    assert(node_fits(ls, root, order, spans, n));
    assert(linked(spans, c));
    assert(node_fits(ls, root, order, spans, c));
    if let Some(q) = ls[n as int].parent {
        assert(linked(spans, q));
        assert(node_fits(ls, root, order, spans, q));
    }
    if let Some(r) = root {
        assert(linked(spans, r));
    }
    assert forall|h: usize| #[trigger] linked(spans2, h) implies node_fits(
        ls2,
        root2,
        order2,
        spans2,
        h,
    ) by {
        assert(linked(spans, h));
        assert(node_fits(ls, root, order, spans, h));
    }
}

/// A node without children leaves the slot on side `d` of its parent `q`.
pub proof fn lemma_cut_shape(
    ls: Seq<Links>,
    root: Option<usize>,
    order: Seq<usize>,
    spans: Map<usize, Span>,
    n: usize,
    q: usize,
    d: NodeDirection,
)
    requires
        shape_ok(ls, root, order, spans),
        linked(spans, n),
        ls[n as int].left is None,
        ls[n as int].right is None,
        ls[n as int].parent == Some(q),
        d == direction_under(ls, n, q),
    ensures
        ls[q as int].child(d) == Some(n),
        shape_ok(
            ls.update(q as int, ls[q as int].with_child(d, None)),
            root,
            order.remove(spans[n].pos),
            closed_spans(spans, n, None),
        ),
{
    reveal(shape_ok);
    let ls2 = ls.update(q as int, ls[q as int].with_child(d, None));
    let order2 = order.remove(spans[n].pos);
    let spans2 = closed_spans(spans, n, None);
    lemma_closed_order(ls, root, order, spans, n, None);
    assert(node_fits(ls, root, order, spans, n));
    assert(linked(spans, q));
    assert(node_fits(ls, root, order, spans, q));
    if let Some(r) = root {
        assert(linked(spans, r));
    }
    assert forall|h: usize| #[trigger] linked(spans2, h) implies node_fits(
        ls2,
        root,
        order2,
        spans2,
        h,
    ) by {
        assert(linked(spans, h));
        assert(node_fits(ls, root, order, spans, h));
    }
}

/// The last node leaves: the tree is empty.
pub proof fn lemma_cut_root_shape(
    ls: Seq<Links>,
    root: Option<usize>,
    order: Seq<usize>,
    spans: Map<usize, Span>,
    n: usize,
)
    requires
        shape_ok(ls, root, order, spans),
        linked(spans, n),
        ls[n as int].left is None,
        ls[n as int].right is None,
        ls[n as int].parent is None,
    ensures
        order.len() == 1,
        shape_ok(ls, None, order.remove(spans[n].pos), closed_spans(spans, n, None)),
{
    reveal(shape_ok);
    let spans2 = closed_spans(spans, n, None);
    lemma_closed_order(ls, root, order, spans, n, None);
    assert(node_fits(ls, root, order, spans, n));
    assert(linked(spans, root->0));
}

/// `ls2` is `ls` after the successor `s` of `n`, which is the right child
/// of `n`, took the place of `n` and its own right child was made black.
pub open spec fn near_swap_links(ls: Seq<Links>, ls2: Seq<Links>, n: usize, s: usize) -> bool {
    let l = ls[n as int].left->0;
    let nr = ls[s as int].right;
    let top = ls[n as int].parent;
    &&& ls2.len() == ls.len()
    &&& forall|h: usize|
        h < ls.len() && h != s && h != l && Some(h) != nr && Some(h) != top
            ==> #[trigger] ls2[h as int]
            == ls[h as int]
    &&& ls2[s as int] == (Links {
        parent: top,
        color: ls[n as int].color,
        left: Some(l),
        right: nr,
    })
    &&& ls2[l as int] == (Links { parent: Some(s), ..ls[l as int] })
    &&& nr matches Some(b) ==> ls2[b as int] == (Links { color: NodeColor::Black, ..ls[b as int] })
    &&& top matches Some(q) ==> ls2[q as int] == ls[q as int].with_child(
        direction_under(ls, n, q),
        Some(s),
    )
}

/// The links after the primitives put the right child `s` of `n` into the
/// place of `n`.
pub open spec fn near_swapped(ls: Seq<Links>, n: usize, s: usize) -> Seq<Links> {
    let ls1 = match ls[s as int].right {
        Some(b) => recolored(ls, b, NodeColor::Black),
        None => ls,
    };
    attached(transplanted(ls1, s, n), s, NodeDirection::LeftChild, ls[n as int].left)
}

/// `ls2` is `ls` after the successor `s` of `n`, which is not a child of
/// `n`, gave its place to its right child, made black, and took the place
/// of `n`.
pub open spec fn far_swap_links(ls: Seq<Links>, ls2: Seq<Links>, n: usize, s: usize) -> bool {
    let l = ls[n as int].left->0;
    let r = ls[n as int].right->0;
    let f = ls[s as int].parent->0;
    let nr = ls[s as int].right;
    let top = ls[n as int].parent;
    &&& ls2.len() == ls.len()
    &&& forall|h: usize|
        h < ls.len() && h != s && h != f && h != l && h != r && Some(h) != nr && Some(h) != top
            ==> #[trigger] ls2[h as int] == ls[h as int]
    &&& ls2[s as int] == (Links {
        parent: top,
        color: ls[n as int].color,
        left: Some(l),
        right: Some(r),
    })
    &&& ls2[l as int] == (Links { parent: Some(s), ..ls[l as int] })
    &&& ls2[r as int] == (Links {
        parent: Some(s),
        left: if f == r {
            nr
        } else {
            ls[r as int].left
        },
        ..ls[r as int]
    })
    &&& ls2[f as int] == (Links {
        parent: if f == r {
            Some(s)
        } else {
            ls[f as int].parent
        },
        left: nr,
        ..ls[f as int]
    })
    &&& nr matches Some(b) ==> ls2[b as int] == (Links {
        parent: Some(f),
        color: NodeColor::Black,
        ..ls[b as int]
    })
    &&& top matches Some(q) ==> ls2[q as int] == ls[q as int].with_child(
        direction_under(ls, n, q),
        Some(s),
    )
}

/// The links after the primitives put `s`, deep in the right subtree of
/// `n`, into the place of `n`.
pub open spec fn far_swapped(ls: Seq<Links>, n: usize, s: usize) -> Seq<Links> {
    let f = ls[s as int].parent->0;
    let ls1 = attached_colored(
        ls,
        f,
        NodeDirection::LeftChild,
        ls[s as int].right,
        NodeColor::Black,
    );
    let ls2 = attached(ls1, s, NodeDirection::RightChild, ls[n as int].right);
    attached(transplanted(ls2, s, n), s, NodeDirection::LeftChild, ls[n as int].left)
}

/// `s` is the successor of `n` in a tree in which `n` has two children.
pub open spec fn is_successor(
    ls: Seq<Links>,
    root: Option<usize>,
    order: Seq<usize>,
    spans: Map<usize, Span>,
    n: usize,
    s: usize,
) -> bool {
    &&& shape_ok(ls, root, order, spans)
    &&& linked(spans, n)
    &&& linked(spans, s)
    &&& ls[n as int].left is Some
    &&& ls[n as int].right is Some
    &&& ls[s as int].left is None
    &&& spans[s].pos == spans[n].pos + 1
}

/// What surrounds a successor: it is the right child of `n` or the left
/// child of a node in the right subtree of `n`, and the handles that the
/// exchange writes are in range.
pub proof fn lemma_successor_place(
    ls: Seq<Links>,
    root: Option<usize>,
    order: Seq<usize>,
    spans: Map<usize, Span>,
    n: usize,
    s: usize,
)
    requires
        is_successor(ls, root, order, spans, n, s),
    ensures
        ({
            let l = ls[n as int].left->0;
            let r = ls[n as int].right->0;
            &&& n < ls.len() && s < ls.len() && l < ls.len() && r < ls.len()
            &&& linked(spans, l) && linked(spans, r)
            &&& ls[n as int].parent matches Some(q) ==> q < ls.len() && linked(spans, q)
            &&& ls[s as int].right matches Some(b) ==> b < ls.len() && linked(spans, b)
            &&& ls[s as int].parent matches Some(f) && f < ls.len() && linked(spans, f)
            &&& s == r <==> ls[s as int].parent == Some(n)
            &&& s != r ==> ls[(ls[s as int].parent->0) as int].left == Some(s)
            &&& s != n && s != l
        }),
{
    reveal(shape_ok);
    assert(node_fits(ls, root, order, spans, n));
    assert(node_fits(ls, root, order, spans, s));
    let l = ls[n as int].left->0;
    let r = ls[n as int].right->0;
    assert(linked(spans, l));
    assert(linked(spans, r));
    assert(node_fits(ls, root, order, spans, l));
    assert(node_fits(ls, root, order, spans, r));
    if let Some(f) = ls[s as int].parent {
        assert(linked(spans, f));
        assert(node_fits(ls, root, order, spans, f));
    } else {
        assert(linked(spans, root->0));
    }
    if let Some(q) = ls[n as int].parent {
        assert(linked(spans, q));
    }
    if let Some(b) = ls[s as int].right {
        assert(linked(spans, b));
    }
}

/// The primitives, applied to a successor that is the right child of `n`,
/// write what `near_swap_links` says.
pub proof fn lemma_near_swapped_at(
    ls: Seq<Links>,
    root: Option<usize>,
    order: Seq<usize>,
    spans: Map<usize, Span>,
    n: usize,
    s: usize,
)
    requires
        is_successor(ls, root, order, spans, n, s),
        ls[n as int].right == Some(s),
    ensures
        near_swap_links(ls, near_swapped(ls, n, s), n, s),
{
    reveal(transplanted);
    reveal(attached);
    reveal(shape_ok);
    lemma_successor_place(ls, root, order, spans, n, s);
    assert(node_fits(ls, root, order, spans, n));
    assert(node_fits(ls, root, order, spans, s));
    let l = ls[n as int].left->0;
    assert(node_fits(ls, root, order, spans, l));
    if let Some(q) = ls[n as int].parent {
        assert(node_fits(ls, root, order, spans, q));
    }
    if let Some(b) = ls[s as int].right {
        assert(node_fits(ls, root, order, spans, b));
    }
}

/// The primitives, applied to a successor deep in the right subtree of `n`,
/// write what `far_swap_links` says.
pub proof fn lemma_far_swapped_at(
    ls: Seq<Links>,
    root: Option<usize>,
    order: Seq<usize>,
    spans: Map<usize, Span>,
    n: usize,
    s: usize,
)
    requires
        is_successor(ls, root, order, spans, n, s),
        ls[n as int].right != Some(s),
    ensures
        far_swap_links(ls, far_swapped(ls, n, s), n, s),
{
    reveal(transplanted);
    reveal(attached);
    reveal(attached_colored);
    reveal(shape_ok);
    lemma_successor_place(ls, root, order, spans, n, s);
    assert(node_fits(ls, root, order, spans, n));
    assert(node_fits(ls, root, order, spans, s));
    let l = ls[n as int].left->0;
    let r = ls[n as int].right->0;
    let f = ls[s as int].parent->0;
    assert(node_fits(ls, root, order, spans, l));
    assert(node_fits(ls, root, order, spans, r));
    assert(node_fits(ls, root, order, spans, f));
    if let Some(q) = ls[n as int].parent {
        assert(node_fits(ls, root, order, spans, q));
    }
    if let Some(b) = ls[s as int].right {
        assert(node_fits(ls, root, order, spans, b));
    }
}

/// A node with two children leaves; its successor, which is its right
/// child, takes its place.
pub proof fn lemma_near_swap_shape(
    ls: Seq<Links>,
    root: Option<usize>,
    order: Seq<usize>,
    spans: Map<usize, Span>,
    n: usize,
    s: usize,
    ls2: Seq<Links>,
)
    requires
        is_successor(ls, root, order, spans, n, s),
        ls[n as int].right == Some(s),
        near_swap_links(ls, ls2, n, s),
    ensures
        shape_ok(
            ls2,
            transplanted_root(ls, root, s, n),
            order.remove(spans[n].pos),
            closed_spans(spans, n, Some(s)),
        ),
{
    reveal(shape_ok);
    let root2 = transplanted_root(ls, root, s, n);
    let order2 = order.remove(spans[n].pos);
    let spans2 = closed_spans(spans, n, Some(s));
    lemma_closed_order(ls, root, order, spans, n, Some(s));
    lemma_successor_place(ls, root, order, spans, n, s);
    assert(node_fits(ls, root, order, spans, n));
    assert(node_fits(ls, root, order, spans, s));
    let l = ls[n as int].left->0;
    assert(node_fits(ls, root, order, spans, l));
    if let Some(q) = ls[n as int].parent {
        assert(node_fits(ls, root, order, spans, q));
    }
    if let Some(b) = ls[s as int].right {
        assert(node_fits(ls, root, order, spans, b));
    }
    if let Some(r) = root {
        assert(linked(spans, r));
    }
    assert forall|h: usize| #[trigger] linked(spans2, h) implies node_fits(
        ls2,
        root2,
        order2,
        spans2,
        h,
    ) by {
        assert(linked(spans, h));
        assert(node_fits(ls, root, order, spans, h));
    }
}

/// A node with two children leaves; its successor, from deep in its right
/// subtree, takes its place.
pub proof fn lemma_far_swap_shape(
    ls: Seq<Links>,
    root: Option<usize>,
    order: Seq<usize>,
    spans: Map<usize, Span>,
    n: usize,
    s: usize,
    ls2: Seq<Links>,
)
    requires
        is_successor(ls, root, order, spans, n, s),
        ls[n as int].right != Some(s),
        far_swap_links(ls, ls2, n, s),
    ensures
        shape_ok(
            ls2,
            transplanted_root(ls, root, s, n),
            order.remove(spans[n].pos),
            closed_spans(spans, n, Some(s)),
        ),
{
    reveal(shape_ok);
    let root2 = transplanted_root(ls, root, s, n);
    let order2 = order.remove(spans[n].pos);
    let spans2 = closed_spans(spans, n, Some(s));
    lemma_closed_order(ls, root, order, spans, n, Some(s));
    lemma_successor_place(ls, root, order, spans, n, s);
    assert(node_fits(ls, root, order, spans, n));
    assert(node_fits(ls, root, order, spans, s));
    let l = ls[n as int].left->0;
    let r = ls[n as int].right->0;
    let f = ls[s as int].parent->0;
    assert(node_fits(ls, root, order, spans, l));
    assert(node_fits(ls, root, order, spans, r));
    assert(node_fits(ls, root, order, spans, f));
    if let Some(q) = ls[n as int].parent {
        assert(node_fits(ls, root, order, spans, q));
    }
    if let Some(b) = ls[s as int].right {
        assert(node_fits(ls, root, order, spans, b));
    }
    if let Some(t) = root {
        assert(linked(spans, t));
    }
    let nr = ls[s as int].right;
    let top = ls[n as int].parent;
    assert forall|h: usize| #[trigger] linked(spans2, h) implies node_fits(
        ls2,
        root2,
        order2,
        spans2,
        h,
    ) by {
        assert(linked(spans, h));
        assert(node_fits(ls, root, order, spans, h));
        if h == s {
            assert(node_fits(ls2, root2, order2, spans2, h));
        } else if h == f {
            assert(node_fits(ls2, root2, order2, spans2, h));
        } else if h == r {
            assert(node_fits(ls2, root2, order2, spans2, h));
        } else if h == l {
            assert(node_fits(ls2, root2, order2, spans2, h));
        } else if Some(h) == nr {
            assert(node_fits(ls2, root2, order2, spans2, h));
        } else if Some(h) == top {
            assert(node_fits(ls2, root2, order2, spans2, h));
        } else {
            assert(ls2[h as int] == ls[h as int]);
            assert(child_fits(ls2, spans2, h, NodeDirection::LeftChild));
            assert(child_fits(ls2, spans2, h, NodeDirection::RightChild));
            assert(node_fits(ls2, root2, order2, spans2, h));
        }
    }
}

/// The links before the successor `s` of `n` takes the place of `n`: its
/// own place is filled already.
pub open spec fn swap_prepared(ls: Seq<Links>, n: usize, s: usize) -> Seq<Links> {
    if ls[n as int].right == Some(s) {
        match ls[s as int].right {
            Some(b) => recolored(ls, b, NodeColor::Black),
            None => ls,
        }
    } else {
        attached(
            attached_colored(
                ls,
                ls[s as int].parent->0,
                NodeDirection::LeftChild,
                ls[s as int].right,
                NodeColor::Black,
            ),
            s,
            NodeDirection::RightChild,
            ls[n as int].right,
        )
    }
}

/// While the successor is put into the place of `n`, every handle that the
/// primitives read names a node.
pub proof fn lemma_swap_ready(
    ls: Seq<Links>,
    root: Option<usize>,
    order: Seq<usize>,
    spans: Map<usize, Span>,
    n: usize,
    s: usize,
)
    requires
        is_successor(ls, root, order, spans, n, s),
    ensures
        swap_prepared(ls, n, s).len() == ls.len(),
        swap_prepared(ls, n, s)[n as int].parent == ls[n as int].parent,
        ls[n as int].parent matches Some(q) ==> q < ls.len(),
        ls[s as int].right matches Some(b) ==> b < ls.len(),
        ls[n as int].right != Some(s) ==> (ls[s as int].parent matches Some(f) && f < ls.len()),
{
    reveal(attached);
    reveal(attached_colored);
    lemma_successor_place(ls, root, order, spans, n, s);
    lemma_node_fits(ls, root, order, spans, n);
    lemma_node_fits(ls, root, order, spans, s);
    let r = ls[n as int].right->0;
    lemma_node_fits(ls, root, order, spans, r);
    if let Some(b) = ls[s as int].right {
        lemma_node_fits(ls, root, order, spans, b);
    }
    if let Some(f) = ls[s as int].parent {
        lemma_node_fits(ls, root, order, spans, f);
    }
}

/// Nothing outside the tree is written when the successor takes the place
/// of `n`.
pub proof fn lemma_swap_frame(
    ls: Seq<Links>,
    root: Option<usize>,
    order: Seq<usize>,
    spans: Map<usize, Span>,
    n: usize,
    s: usize,
    ls2: Seq<Links>,
)
    requires
        is_successor(ls, root, order, spans, n, s),
        if ls[n as int].right == Some(s) {
            near_swap_links(ls, ls2, n, s)
        } else {
            far_swap_links(ls, ls2, n, s)
        },
    ensures
        forall|h: usize| h < ls.len() && !linked(spans, h)
            ==> #[trigger] ls2[h as int] == ls[h as int],
        ls2[n as int] == ls[n as int],
{
    lemma_successor_place(ls, root, order, spans, n, s);
    lemma_node_fits(ls, root, order, spans, n);
    lemma_node_fits(ls, root, order, spans, s);
    let l = ls[n as int].left->0;
    let r = ls[n as int].right->0;
    lemma_node_fits(ls, root, order, spans, l);
    lemma_node_fits(ls, root, order, spans, r);
    if let Some(f) = ls[s as int].parent {
        lemma_node_fits(ls, root, order, spans, f);
    }
    if let Some(b) = ls[s as int].right {
        lemma_node_fits(ls, root, order, spans, b);
    }
    if let Some(q) = ls[n as int].parent {
        lemma_node_fits(ls, root, order, spans, q);
    }
}

/// Nothing outside the tree is written when the only child `c` of `n`
/// takes the place of `n`.
pub proof fn lemma_splice_frame(
    ls: Seq<Links>,
    root: Option<usize>,
    order: Seq<usize>,
    spans: Map<usize, Span>,
    n: usize,
    c: usize,
    d: NodeDirection,
    ls2: Seq<Links>,
)
    requires
        shape_ok(ls, root, order, spans),
        linked(spans, n),
        ls[n as int].child(d) == Some(c),
        splice_links(ls, ls2, n, c),
    ensures
        forall|h: usize| h < ls.len() && !linked(spans, h)
            ==> #[trigger] ls2[h as int] == ls[h as int],
        ls2[n as int] == ls[n as int],
{
    lemma_node_fits(ls, root, order, spans, n);
    lemma_node_fits(ls, root, order, spans, c);
    if let Some(q) = ls[n as int].parent {
        lemma_node_fits(ls, root, order, spans, q);
    }
}

/// A node that is not linked can be written freely: the tree does not read
/// it.
pub proof fn lemma_shape_frame(
    ls: Seq<Links>,
    root: Option<usize>,
    order: Seq<usize>,
    spans: Map<usize, Span>,
    ls2: Seq<Links>,
)
    requires
        shape_ok(ls, root, order, spans),
        ls2.len() == ls.len(),
        forall|h: usize| #[trigger] linked(spans, h) && h < ls.len()
            ==> ls2[h as int] == ls[h as int],
    ensures
        shape_ok(ls2, root, order, spans),
{
    reveal(shape_ok);
    assert forall|h: usize| #[trigger] linked(spans, h) implies node_fits(
        ls2,
        root,
        order,
        spans,
        h,
    ) by {
        assert(node_fits(ls, root, order, spans, h));
        if let Some(a) = ls[h as int].left {
            assert(linked(spans, a));
        }
        if let Some(b) = ls[h as int].right {
            assert(linked(spans, b));
        }
        if let Some(q) = ls[h as int].parent {
            assert(linked(spans, q));
        }
    }
    if let Some(r) = root {
        assert(linked(spans, r));
    }
}

} // verus!
