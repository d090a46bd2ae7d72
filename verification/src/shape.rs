//! The shape of a tree: which handles it links, in which order, and how the
//! links between nodes agree with that order.

use crate::node::{
    Links, NodeColor, NodeDirection, attached, attached_colored, direction_under, rotated,
    transplanted, transplanted_root,
};
use vstd::prelude::*;

verus! {

/// The place of a linked node in the in-order sequence: the node stands at
/// `pos`, and its subtree occupies the positions from `lo` up to, not
/// including, `hi`.
pub struct Span {
    pub lo: int,
    pub pos: int,
    pub hi: int,
}

/// Whether the tree links `h`.
pub open spec fn linked(spans: Map<usize, Span>, h: usize) -> bool {
    spans.dom().contains(h)
}

/// The positions left to the subtree on side `d` of a node with span `s`.
pub open spec fn child_span(s: Span, d: NodeDirection) -> (int, int) {
    match d {
        NodeDirection::LeftChild => (s.lo, s.pos),
        NodeDirection::RightChild => (s.pos + 1, s.hi),
    }
}

/// The slot on side `d` of `h` agrees with the order: it is empty exactly if
/// no position is left for it, and a child in it points back at `h` and
/// occupies exactly the positions left for it.
pub open spec fn child_fits(
    ls: Seq<Links>,
    spans: Map<usize, Span>,
    h: usize,
    d: NodeDirection,
) -> bool {
    let (lo, hi) = child_span(spans[h], d);
    match ls[h as int].child(d) {
        None => lo == hi,
        Some(k) => {
            &&& spans.dom().contains(k)
            &&& (k as int) < ls.len()
            &&& ls[k as int].parent == Some(h)
            &&& spans[k].lo == lo
            &&& spans[k].hi == hi
        },
    }
}

/// The links of `h` agree with the order and with the nodes around it.
pub open spec fn node_fits(
    ls: Seq<Links>,
    root: Option<usize>,
    order: Seq<usize>,
    spans: Map<usize, Span>,
    h: usize,
) -> bool {
    let s = spans[h];
    &&& (h as int) < ls.len()
    &&& 0 <= s.lo <= s.pos < s.hi <= order.len()
    &&& order[s.pos] == h
    &&& child_fits(ls, spans, h, NodeDirection::LeftChild)
    &&& child_fits(ls, spans, h, NodeDirection::RightChild)
    &&& match ls[h as int].parent {
        None => root == Some(h),
        Some(q) => {
            &&& spans.dom().contains(q)
            &&& (q as int) < ls.len()
            &&& (ls[q as int].left == Some(h) || ls[q as int].right == Some(h))
        },
    }
}

/// The links `ls` form a binary tree below `root` whose in-order sequence of
/// handles is `order`, with the subtree of each linked node at its span.
#[verifier::opaque]
pub open spec fn shape_ok(
    ls: Seq<Links>,
    root: Option<usize>,
    order: Seq<usize>,
    spans: Map<usize, Span>,
) -> bool {
    &&& forall|p: int|
        0 <= p < order.len() ==> spans.dom().contains(#[trigger] order[p]) && spans[order[p]].pos
            == p
    &&& forall|h: usize| #[trigger] linked(spans, h) ==> node_fits(ls, root, order, spans, h)
    &&& match root {
        None => order.len() == 0,
        Some(r) => {
            &&& spans.dom().contains(r)
            &&& (r as int) < ls.len()
            &&& ls[r as int].parent is None
            &&& spans[r].lo == 0
            &&& spans[r].hi == order.len()
        },
    }
}

/// In a tree, the links of each linked node fit.
pub proof fn lemma_node_fits(
    ls: Seq<Links>,
    root: Option<usize>,
    order: Seq<usize>,
    spans: Map<usize, Span>,
    h: usize,
)
    requires
        shape_ok(ls, root, order, spans),
        linked(spans, h),
    ensures
        node_fits(ls, root, order, spans, h),
{
    reveal(shape_ok);
}

/// A tree without root links nothing; a root is linked, has no parent, and
/// its subtree is the whole order.
pub proof fn lemma_root_fits(
    ls: Seq<Links>,
    root: Option<usize>,
    order: Seq<usize>,
    spans: Map<usize, Span>,
)
    requires
        shape_ok(ls, root, order, spans),
    ensures
        match root {
            None => order.len() == 0,
            Some(r) => {
                &&& linked(spans, r)
                &&& r < ls.len()
                &&& ls[r as int].parent is None
                &&& spans[r].lo == 0
                &&& spans[r].hi == order.len()
            },
        },
{
    reveal(shape_ok);
}

/// The spans after `x`, the child of `p` on side `d`, was rotated above `p`.
pub open spec fn promote_spans(
    spans: Map<usize, Span>,
    x: usize,
    p: usize,
    d: NodeDirection,
) -> Map<
    usize,
    Span,
> {
    let sx = spans[x];
    let sp = spans[p];
    let nx = Span { lo: sp.lo, pos: sx.pos, hi: sp.hi };
    let np = match d {
        NodeDirection::LeftChild => Span { lo: sx.pos + 1, pos: sp.pos, hi: sp.hi },
        NodeDirection::RightChild => Span { lo: sp.lo, pos: sp.pos, hi: sx.pos },
    };
    spans.insert(x, nx).insert(p, np)
}

/// The links after `x`, the child of `p` on side `d`, took the place of `p`
/// and was rotated above it.
pub open spec fn promoted(
    ls: Seq<Links>,
    x: usize,
    p: usize,
    d: NodeDirection,
    color: NodeColor,
) -> Seq<
    Links,
> {
    rotated(transplanted(ls, x, p), x, p, d, color)
}

/// `ls2` is `ls` after `x`, the child of `p` on side `d`, was rotated above
/// `p`, whatever became of the colours of the two.
pub open spec fn rotation_links(
    ls: Seq<Links>,
    ls2: Seq<Links>,
    x: usize,
    p: usize,
    d: NodeDirection,
) -> bool {
    let inner = ls[x as int].child(d.other());
    let top = ls[p as int].parent;
    &&& ls2.len() == ls.len()
    &&& forall|h: usize|
        h < ls.len() && h != x && h != p && Some(h) != inner && Some(h) != top
            ==> #[trigger] ls2[h as int]
            == ls[h as int]
    &&& ls2[x as int].parent == top
    &&& ls2[x as int].child(d) == ls[x as int].child(d)
    &&& ls2[x as int].child(d.other()) == Some(p)
    &&& ls2[p as int].parent == Some(x)
    &&& ls2[p as int].child(d) == inner
    &&& ls2[p as int].child(d.other()) == ls[p as int].child(d.other())
    &&& inner matches Some(b) ==> ls2[b as int] == (Links { parent: Some(p), ..ls[b as int] })
    &&& top matches Some(g) ==> ls2[g as int] == ls[g as int].with_child(
        direction_under(ls, p, g),
        Some(x),
    )
}

/// A rotation keeps the shape and the order.
pub proof fn lemma_rotation_shape(
    ls: Seq<Links>,
    root: Option<usize>,
    order: Seq<usize>,
    spans: Map<usize, Span>,
    x: usize,
    p: usize,
    d: NodeDirection,
    ls2: Seq<Links>,
)
    requires
        shape_ok(ls, root, order, spans),
        linked(spans, x),
        ls[x as int].parent == Some(p),
        ls[p as int].child(d) == Some(x),
        rotation_links(ls, ls2, x, p, d),
    ensures
        shape_ok(ls2, transplanted_root(ls, root, x, p), order, promote_spans(spans, x, p, d)),
{
    reveal(shape_ok);
    let root2 = transplanted_root(ls, root, x, p);
    let spans2 = promote_spans(spans, x, p, d);
    let top = ls[p as int].parent;
    let inner = ls[x as int].child(d.other());
    assert(linked(spans, p));
    if let Some(g) = top {
        assert(linked(spans, g));
    }
    if let Some(b) = inner {
        assert(linked(spans, b));
    }
    assert forall|h: usize| #[trigger] linked(spans2, h) implies node_fits(
        ls2,
        root2,
        order,
        spans2,
        h,
    ) by {
        assert(linked(spans, h));
    }
}

/// `ls` with the node `h` given the colour `c`.
pub open spec fn recolored(ls: Seq<Links>, h: usize, c: NodeColor) -> Seq<Links> {
    ls.update(h as int, Links { color: c, ..ls[h as int] })
}

/// `a` and `b` link the same nodes in the same way; colours may differ.
pub open spec fn same_wiring(a: Seq<Links>, b: Seq<Links>) -> bool {
    &&& a.len() == b.len()
    &&& forall|h: usize|
        h < a.len() ==> (#[trigger] b[h as int]).parent == a[h as int].parent && b[h as int].left
            == a[h as int].left && b[h as int].right == a[h as int].right
}

/// The shape does not depend on the colours.
pub proof fn lemma_same_wiring(
    ls: Seq<Links>,
    root: Option<usize>,
    order: Seq<usize>,
    spans: Map<usize, Span>,
    ls2: Seq<Links>,
)
    requires
        shape_ok(ls, root, order, spans),
        same_wiring(ls, ls2),
    ensures
        shape_ok(ls2, root, order, spans),
{
    reveal(shape_ok);
    assert forall|h: usize| #[trigger] linked(spans, h) implies node_fits(
        ls2,
        root,
        order,
        spans,
        h,
    ) by {
        assert(node_fits(ls, root, order, spans, h));
    }
}

/// The handles that a rotation of `x` above `p` writes are in range and
/// differ from each other.
pub open spec fn rotation_apart(ls: Seq<Links>, x: usize, p: usize, d: NodeDirection) -> bool {
    let inner = ls[x as int].child(d.other());
    let top = ls[p as int].parent;
    &&& x < ls.len()
    &&& p < ls.len()
    &&& x != p
    &&& inner matches Some(b) ==> b < ls.len() && b != x && b != p
    &&& top matches Some(g) ==> g < ls.len() && g != x && g != p && top != inner
}

/// In a tree, the handles that a rotation writes are apart.
pub proof fn lemma_rotation_apart(
    ls: Seq<Links>,
    root: Option<usize>,
    order: Seq<usize>,
    spans: Map<usize, Span>,
    x: usize,
    p: usize,
    d: NodeDirection,
)
    requires
        shape_ok(ls, root, order, spans),
        linked(spans, x),
        ls[x as int].parent == Some(p),
        ls[p as int].child(d) == Some(x),
    ensures
        rotation_apart(ls, x, p, d),
{
    reveal(shape_ok);
    let top = ls[p as int].parent;
    let inner = ls[x as int].child(d.other());
    assert(linked(spans, p));
    if let Some(g) = top {
        assert(linked(spans, g));
    }
    if let Some(b) = inner {
        assert(linked(spans, b));
    }
}

/// What the rotation primitive alone writes, link by link.
pub proof fn lemma_rotated_at(
    ls: Seq<Links>,
    x: usize,
    p: usize,
    d: NodeDirection,
    color: NodeColor,
)
    requires
        x < ls.len(),
        p < ls.len(),
        x != p,
        ls[x as int].child(d.other()) matches Some(b) ==> b < ls.len() && b != x && b != p,
    ensures
        ({
            let r = rotated(ls, x, p, d, color);
            let inner = ls[x as int].child(d.other());
            &&& r.len() == ls.len()
            &&& forall|h: usize|
                h < ls.len() && h != x && h != p && Some(h) != inner ==> #[trigger] r[h as int]
                    == ls[h as int]
            &&& r[x as int] == ls[x as int].with_child(d.other(), Some(p))
            &&& r[p as int] == (Links {
                parent: Some(x),
                color: color,
                ..ls[p as int].with_child(d, inner)
            })
            &&& inner matches Some(b) ==> r[b as int] == (Links { parent: Some(p), ..ls[b as int] })
        }),
{
    reveal(rotated);
    reveal(attached);
    reveal(attached_colored);
}

/// The rotation that the primitives perform relates the links as
/// `rotation_links` says, gives `x` the colour of `p`, and `p` the colour
/// asked for.
pub proof fn lemma_promoted_at(
    ls: Seq<Links>,
    x: usize,
    p: usize,
    d: NodeDirection,
    color: NodeColor,
)
    requires
        rotation_apart(ls, x, p, d),
    ensures
        rotation_links(ls, promoted(ls, x, p, d, color), x, p, d),
        promoted(ls, x, p, d, color)[x as int].color == ls[p as int].color,
        promoted(ls, x, p, d, color)[p as int].color == color,
{
    reveal(rotated);
    reveal(attached);
    reveal(attached_colored);
    reveal(transplanted);
}

/// Every handle that the primitives read while they rotate `x` above `p`
/// names a node.
pub open spec fn promote_ready(ls: Seq<Links>, x: usize, p: usize, d: NodeDirection) -> bool {
    &&& x < ls.len()
    &&& p < ls.len()
    &&& ls[p as int].parent matches Some(t) ==> t < ls.len()
    &&& transplanted(ls, x, p).len() == ls.len()
    &&& transplanted(ls, x, p)[x as int].child(d.other()) matches Some(c) ==> c < ls.len()
}

/// Before a rotation of `x` above `p`, every handle that the primitives
/// read names a node, and what they write is a rotation.
pub proof fn lemma_promote_ready(
    ls: Seq<Links>,
    root: Option<usize>,
    order: Seq<usize>,
    spans: Map<usize, Span>,
    x: usize,
    p: usize,
    d: NodeDirection,
    color: NodeColor,
)
    requires
        shape_ok(ls, root, order, spans),
        linked(spans, x),
        ls[x as int].parent == Some(p),
        ls[p as int].child(d) == Some(x),
    ensures
        promote_ready(ls, x, p, d),
        linked(spans, p),
        rotation_links(ls, promoted(ls, x, p, d, color), x, p, d),
        promoted(ls, x, p, d, color)[x as int].color == ls[p as int].color,
        promoted(ls, x, p, d, color)[p as int].color == color,
{
    reveal(transplanted);
    lemma_rotation_apart(ls, root, order, spans, x, p, d);
    lemma_promoted_at(ls, x, p, d, color);
    lemma_node_fits(ls, root, order, spans, x);
}

/// A sequence of handles below `m`, none of them twice, has at most `m`
/// elements.
pub proof fn lemma_distinct_handles(s: Seq<usize>, m: nat)
    requires
        s.no_duplicates(),
        forall|i: int| 0 <= i < s.len() ==> (#[trigger] s[i]) < m,
    ensures
        s.len() <= m,
    decreases m,
{
    if m == 0 {
        if s.len() > 0 {
            assert(s[0] < m);
        }
    } else {
        let top = (m - 1) as usize;
        if exists|k: int| 0 <= k < s.len() && s[k] == top {
            let k = choose|k: int| 0 <= k < s.len() && s[k] == top;
            let t = s.remove(k);
            s.remove_ensures(k);
            assert forall|i: int| 0 <= i < t.len() implies (#[trigger] t[i]) < m - 1 by {
                let j = if i < k {
                    i
                } else {
                    i + 1
                };
                assert(t[i] == s[j]);
                assert(s[j] < m);
                assert(j != k);
            }
            assert(t.no_duplicates()) by {
                assert forall|i: int, j: int| 0 <= i < t.len() && 0 <= j < t.len() && i != j
                    implies t[i]
                    != t[j] by {
                    let a = if i < k {
                        i
                    } else {
                        i + 1
                    };
                    let b = if j < k {
                        j
                    } else {
                        j + 1
                    };
                    assert(t[i] == s[a]);
                    assert(t[j] == s[b]);
                }
            }
            lemma_distinct_handles(t, (m - 1) as nat);
        } else {
            assert forall|i: int| 0 <= i < s.len() implies (#[trigger] s[i]) < m - 1 by {
                assert(s[i] < m);
            }
            lemma_distinct_handles(s, (m - 1) as nat);
        }
    }
}

/// `ls2` has as many nodes as `ls`, and those that the tree does not link
/// are the same in both.
#[verifier::opaque]
pub open spec fn untouched(ls: Seq<Links>, ls2: Seq<Links>, spans: Map<usize, Span>) -> bool {
    &&& ls2.len() == ls.len()
    &&& forall|h: usize| h < ls.len() && !linked(spans, h)
        ==> #[trigger] ls2[h as int] == ls[h as int]
}

/// Links that were not written are untouched.
pub proof fn lemma_untouched_same(ls: Seq<Links>, spans: Map<usize, Span>)
    ensures
        untouched(ls, ls, spans),
{
    reveal(untouched);
}

/// What two steps leave untouched, one after the other, where both deal
/// with the same linked nodes.
pub proof fn lemma_untouched_then(
    a: Seq<Links>,
    b: Seq<Links>,
    c: Seq<Links>,
    spans: Map<usize, Span>,
    spans2: Map<usize, Span>,
)
    requires
        untouched(a, b, spans),
        untouched(b, c, spans2),
        spans2.dom() == spans.dom(),
    ensures
        untouched(a, c, spans),
{
    reveal(untouched);
}

/// A new colour for a linked node leaves the others untouched.
pub proof fn lemma_untouched_recolored(
    ls: Seq<Links>,
    spans: Map<usize, Span>,
    h: usize,
    c: NodeColor,
)
    requires
        h < ls.len(),
        linked(spans, h),
    ensures
        untouched(ls, recolored(ls, h, c), spans),
{
    reveal(untouched);
}

/// The tree links `h` exactly if `h` occurs in the order.
pub proof fn lemma_linked_in_order(
    ls: Seq<Links>,
    root: Option<usize>,
    order: Seq<usize>,
    spans: Map<usize, Span>,
    h: usize,
)
    requires
        shape_ok(ls, root, order, spans),
    ensures
        linked(spans, h) <==> order.contains(h),
{
    reveal(shape_ok);
    if linked(spans, h) {
        assert(node_fits(ls, root, order, spans, h));
        assert(order[spans[h].pos] == h);
    }
}

/// A position after a new element entered the order at `k`. Positions
/// beyond `k` move up by one, and so does `k` itself unless `stay`.
pub open spec fn opened(v: int, k: int, stay: bool) -> int {
    if v > k || (v == k && !stay) {
        v + 1
    } else {
        v
    }
}

/// The spans after the node `n` entered the order at `k` as a leaf, as the
/// child on side `d` of its parent.
pub open spec fn opened_spans(spans: Map<usize, Span>, k: int, d: NodeDirection, n: usize) -> Map<
    usize,
    Span,
> {
    Map::new(
        |h: usize| spans.dom().contains(h) || h == n,
        |h: usize|
            if h == n {
                Span { lo: k, pos: k, hi: k + 1 }
            } else {
                Span {
                    lo: opened(spans[h].lo, k, d == NodeDirection::LeftChild),
                    pos: opened(spans[h].pos, k, false),
                    hi: opened(spans[h].hi, k, d == NodeDirection::LeftChild),
                }
            },
    )
}

/// `ls2` is `ls` after the node `n`, which has no children, was attached to
/// the empty slot on side `d` of `q`.
pub open spec fn leaf_links(
    ls: Seq<Links>,
    ls2: Seq<Links>,
    q: usize,
    d: NodeDirection,
    n: usize,
) -> bool {
    &&& ls2.len() == ls.len()
    &&& forall|h: usize| h < ls.len() && h != q && h != n
        ==> #[trigger] ls2[h as int] == ls[h as int]
    &&& ls2[q as int] == ls[q as int].with_child(d, Some(n))
    &&& ls2[n as int].parent == Some(q)
    &&& ls2[n as int].left is None
    &&& ls2[n as int].right is None
}

/// A leaf attached to an empty slot enters the order at the position of
/// that slot, and the shape is kept.
pub proof fn lemma_leaf_shape(
    ls: Seq<Links>,
    root: Option<usize>,
    order: Seq<usize>,
    spans: Map<usize, Span>,
    q: usize,
    d: NodeDirection,
    n: usize,
    ls2: Seq<Links>,
)
    requires
        shape_ok(ls, root, order, spans),
        linked(spans, q),
        !linked(spans, n),
        n < ls.len(),
        ls[q as int].child(d) is None,
        leaf_links(ls, ls2, q, d, n),
    ensures
        shape_ok(
            ls2,
            root,
            order.insert(child_span(spans[q], d).0, n),
            opened_spans(spans, child_span(spans[q], d).0, d, n),
        ),
{
    reveal(shape_ok);
    let k = child_span(spans[q], d).0;
    let order2 = order.insert(k, n);
    let spans2 = opened_spans(spans, k, d, n);
    assert(node_fits(ls, root, order, spans, q));
    order.insert_ensures(k, n);
    assert forall|p: int| 0 <= p < order2.len() implies spans2.dom().contains(
        #[trigger] order2[p],
    ) && spans2[order2[p]].pos == p by {
        if p < k {
            assert(order2[p] == order[p]);
        } else if p > k {
            assert(order2[p] == order[p - 1]);
        }
    }
    assert forall|h: usize| #[trigger] linked(spans2, h) implies node_fits(
        ls2,
        root,
        order2,
        spans2,
        h,
    ) by {
        if h != n {
            assert(linked(spans, h));
            assert(node_fits(ls, root, order, spans, h));
        }
    }
    if let Some(r) = root {
        assert(linked(spans, r));
    }
}

/// A single black node without parent or children is a tree.
pub proof fn lemma_single_shape(ls: Seq<Links>, n: usize)
    requires
        n < ls.len(),
        ls[n as int].parent is None,
        ls[n as int].left is None,
        ls[n as int].right is None,
    ensures
        shape_ok(ls, Some(n), seq![n], map![n => Span { lo: 0, pos: 0, hi: 1 }]),
{
    reveal(shape_ok);
    let spans = map![n => Span { lo: 0, pos: 0, hi: 1 }];
    assert forall|h: usize| #[trigger] linked(spans, h) implies node_fits(
        ls,
        Some(n),
        seq![n],
        spans,
        h,
    ) by {
        assert(h == n);
    }
}

} // verus!
