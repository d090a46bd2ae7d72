//! Nodes and the structural primitives that rewire them.
//!
//! A node lives in a slice that the caller owns and is named by its index in
//! that slice, its handle. The links of a node (parent, left child, right
//! child) are handles into the same slice. Every primitive below is exact
//! about the links it writes: its contract gives the links of the whole
//! slice after the call as a function of the links before it.

use crate::tree::RbTree;
use std::marker::PhantomData;
use vstd::prelude::*;

verus! {

/// The side of a parent on which a child hangs.
#[derive(PartialEq, Eq, Clone, Copy, Debug, Structural)]
pub enum NodeDirection {
    LeftChild,
    RightChild,
}

impl NodeDirection {
    /// The opposite side.
    pub open spec fn other(self) -> NodeDirection {
        match self {
            NodeDirection::LeftChild => NodeDirection::RightChild,
            NodeDirection::RightChild => NodeDirection::LeftChild,
        }
    }

    /// The side that a descent takes: right if `branch`, left otherwise.
    pub open spec fn of(branch: bool) -> NodeDirection {
        if branch {
            NodeDirection::RightChild
        } else {
            NodeDirection::LeftChild
        }
    }

    /// The opposite side.
    pub fn opposite(self) -> (r: NodeDirection)
        ensures
            r == self.other(),
    {
        if self == NodeDirection::LeftChild {
            NodeDirection::RightChild
        } else {
            NodeDirection::LeftChild
        }
    }
}

impl From<NodeDirection> for usize {
    /// The index of the side: 0 for the left, 1 for the right.
    fn from(child: NodeDirection) -> (r: usize) {
        match child {
            NodeDirection::LeftChild => 0,
            NodeDirection::RightChild => 1,
        }
    }
}

impl vstd::std_specs::convert::FromSpecImpl<NodeDirection> for usize {
    open spec fn obeys_from_spec() -> bool {
        true
    }

    open spec fn from_spec(child: NodeDirection) -> usize {
        match child {
            NodeDirection::LeftChild => 0,
            NodeDirection::RightChild => 1,
        }
    }
}

impl From<bool> for NodeDirection {
    /// The side that a descent takes: right if `branch`, left otherwise.
    fn from(branch: bool) -> (r: NodeDirection) {
        match branch {
            false => NodeDirection::LeftChild,
            true => NodeDirection::RightChild,
        }
    }
}

impl vstd::std_specs::convert::FromSpecImpl<bool> for NodeDirection {
    open spec fn obeys_from_spec() -> bool {
        true
    }

    open spec fn from_spec(branch: bool) -> NodeDirection {
        NodeDirection::of(branch)
    }
}

/// The colour tag of a node.
#[derive(PartialEq, Eq, Clone, Copy, Debug, Structural)]
pub enum NodeColor {
    Red,
    Black,
}

impl NodeColor {
    /// One letter for the colour: `R` or `B`.
    pub fn letter(&self) -> (r: char)
        ensures
            r == (match *self {
                NodeColor::Red => 'R',
                NodeColor::Black => 'B',
            }),
    {
        match self {
            NodeColor::Red => 'R',
            NodeColor::Black => 'B',
        }
    }
}

/// What a payload type offers: it is made from a key, and its key can be
/// read and replaced. The tree orders payloads by their `PartialOrd`.
pub trait RbTrait<Key>: Sized {
    /// A payload made from `key`.
    fn new(key: Key) -> Self;

    /// The key of this payload.
    fn get(&self) -> Key;

    /// Replaces the key of this payload.
    fn set(&mut self, key: Key);
}

/// The colour and the three links of a node: all of a node but its payload.
pub struct Links {
    pub color: NodeColor,
    pub parent: Option<usize>,
    pub left: Option<usize>,
    pub right: Option<usize>,
}

impl Links {
    /// The links of a node that is in no tree: red, without parent or children.
    pub open spec fn unlinked() -> Links {
        Links { color: NodeColor::Red, parent: None, left: None, right: None }
    }

    /// The child on side `d`.
    pub open spec fn child(self, d: NodeDirection) -> Option<usize> {
        match d {
            NodeDirection::LeftChild => self.left,
            NodeDirection::RightChild => self.right,
        }
    }

    /// These links with the child on side `d` replaced by `c`.
    pub open spec fn with_child(self, d: NodeDirection, c: Option<usize>) -> Links {
        match d {
            NodeDirection::LeftChild => Links { left: c, ..self },
            NodeDirection::RightChild => Links { right: c, ..self },
        }
    }

    /// Whether the colour is black.
    pub open spec fn is_black(self) -> bool {
        self.color == NodeColor::Black
    }

    /// Whether the colour is red.
    pub open spec fn is_red(self) -> bool {
        self.color == NodeColor::Red
    }
}

/// The links of a slice together with the root of the tree in it: what an
/// operation on the tree leaves behind.
pub struct Outcome {
    pub links: Seq<Links>,
    pub root: Option<usize>,
}

/// One tree element: a colour, a payload and three links.
pub struct RbNode<Key: Default, T: RbTrait<Key> + PartialOrd> {
    pub(crate) color: NodeColor,
    pub(crate) val: T,
    pub(crate) parent: Option<usize>,
    pub(crate) childs: [Option<usize>; 2],
    pub(crate) _key: PhantomData<Key>,
}

/// The links of every node of a slice, by handle.
pub open spec fn links_of<Key: Default, T: RbTrait<Key> + PartialOrd>(
    nodes: Seq<RbNode<Key, T>>,
) -> Seq<Links> {
    Seq::new(nodes.len(), |i: int| nodes[i].links())
}

/// The payload of every node of a slice, by handle.
pub open spec fn payloads_of<Key: Default, T: RbTrait<Key> + PartialOrd>(
    nodes: Seq<RbNode<Key, T>>,
) -> Seq<T> {
    Seq::new(nodes.len(), |i: int| nodes[i].payload())
}

/// `ls` after `child` was put into slot `d` of `this` and, if there is a
/// child, `this` was written into its parent link.
#[verifier::opaque]
pub open spec fn attached(
    ls: Seq<Links>,
    this: usize,
    d: NodeDirection,
    child: Option<usize>,
) -> Seq<
    Links,
> {
    let ls1 = ls.update(this as int, ls[this as int].with_child(d, child));
    match child {
        None => ls1,
        Some(c) => ls1.update(c as int, Links { parent: Some(this), ..ls1[c as int] }),
    }
}

/// `ls` after `child` was attached to slot `d` of `this` and recoloured.
#[verifier::opaque]
pub open spec fn attached_colored(
    ls: Seq<Links>,
    this: usize,
    d: NodeDirection,
    child: Option<usize>,
    color: NodeColor,
) -> Seq<Links> {
    let ls1 = ls.update(this as int, ls[this as int].with_child(d, child));
    match child {
        None => ls1,
        Some(c) => ls1.update(c as int, Links { parent: Some(this), color: color, ..ls1[c as int] }),
    }
}

/// `ls` after `this`, the child of `parent` on side `d`, was rotated above
/// it: the inner subtree of `this` moves to the vacated slot of `parent`, and
/// `parent` becomes the child of `this` on the other side, with colour
/// `color`. The link from above `parent` and the parent link of `this` are
/// not written.
#[verifier::opaque]
pub open spec fn rotated(
    ls: Seq<Links>,
    this: usize,
    parent: usize,
    d: NodeDirection,
    color: NodeColor,
) -> Seq<Links> {
    attached_colored(
        attached(ls, parent, d, ls[this as int].child(d.other())),
        this,
        d.other(),
        Some(parent),
        color,
    )
}

/// The side of `parent` that a walk from `this` upwards arrives from: left
/// if the left slot of `parent` holds `this`, right otherwise.
pub open spec fn direction_under(ls: Seq<Links>, this: usize, parent: usize) -> NodeDirection {
    if ls[parent as int].left == Some(this) {
        NodeDirection::LeftChild
    } else {
        NodeDirection::RightChild
    }
}

/// `ls` after `this` took the place of `node`: its parent link and colour
/// are those of `node`, and the slot above `node` that held `node` holds
/// `this`.
#[verifier::opaque]
pub open spec fn transplanted(ls: Seq<Links>, this: usize, node: usize) -> Seq<Links> {
    let top = ls[node as int].parent;
    let ls1 = ls.update(
        this as int,
        Links { parent: top, color: ls[node as int].color, ..ls[this as int] },
    );
    match top {
        None => ls1,
        Some(p) => ls1.update(
            p as int,
            ls1[p as int].with_child(direction_under(ls1, node, p), Some(this)),
        ),
    }
}

/// The root after `this` took the place of `node`.
pub open spec fn transplanted_root(
    ls: Seq<Links>,
    root: Option<usize>,
    this: usize,
    node: usize,
) -> Option<
    usize,
> {
    if ls[node as int].parent is None {
        Some(this)
    } else {
        root
    }
}

impl<Key: Default, T: RbTrait<Key> + PartialOrd> RbNode<Key, T> {
    /// The colour and links of this node.
    pub open(crate) spec fn links(&self) -> Links {
        Links {
            color: self.color,
            parent: self.parent,
            left: self.childs[0],
            right: self.childs[1],
        }
    }

    /// The payload of this node.
    pub open(crate) spec fn payload(&self) -> T {
        self.val
    }

    /// A red node in no tree, whose payload is what `T::new` makes of `key`.
    pub fn new(key: Key) -> (r: Self)
        ensures
            r.links() == Links::unlinked(),
            call_ensures(T::new, (key,), r.payload()),
    {
        RbNode {
            color: NodeColor::Red,
            val: T::new(key),
            parent: None,
            childs: [None, None],
            _key: PhantomData,
        }
    }

    /// Hands `key` to the payload's `set`: the payload afterwards is what
    /// that made of the payload before. The links stay as they are.
    pub fn set(&mut self, key: Key)
        ensures
            final(self).links() == old(self).links(),
            exists|m: &mut T|
                mut_ref_current(m) == old(self).payload()
                    && mut_ref_future(m) == final(self).payload()
                    && #[trigger] call_ensures(T::set, (m, key), ()),
    {
        self.val.set(key)
    }

    /// The payload.
    pub fn val(&self) -> (r: &T)
        ensures
            *r == self.payload(),
    {
        &self.val
    }

    /// The handle of the child on side `child`.
    #[inline]
    pub fn get_child(&self, child: NodeDirection) -> (r: Option<usize>)
        ensures
            r == self.links().child(child),
    {
        self.childs[usize::from(child)]
    }

    /// Whether this node is black.
    #[inline]
    pub fn is_black(&self) -> (r: bool)
        ensures
            r == self.links().is_black(),
    {
        self.color == NodeColor::Black
    }

    /// Whether this node is red.
    #[inline]
    pub fn is_red(&self) -> (r: bool)
        ensures
            r == self.links().is_red(),
    {
        self.color == NodeColor::Red
    }

    /// The handle of the parent.
    #[inline]
    pub fn get_parent(&self) -> (r: Option<usize>)
        ensures
            r == self.links().parent,
    {
        self.parent
    }

    /// Gives this node the colour `color`.
    #[inline]
    pub(crate) fn set_color(&mut self, color: NodeColor)
        ensures
            final(self).links() == (Links { color: color, ..old(self).links() }),
            final(self).payload() == old(self).payload(),
    {
        self.color = color
    }

    /// Gives the node `this` the colour `color`.
    #[inline]
    pub(crate) fn paint(nodes: &mut [Self], this: usize, color: NodeColor)
        requires
            this < old(nodes).len(),
        ensures
            final(nodes).len() == old(nodes).len(),
            links_of(final(nodes)@) == links_of(old(nodes)@).update(
                this as int,
                Links { color: color, ..links_of(old(nodes)@)[this as int] },
            ),
            payloads_of(final(nodes)@) == payloads_of(old(nodes)@),
    {
        nodes[this].set_color(color);
        assert(links_of(nodes@) =~= links_of(old(nodes)@).update(
            this as int,
            Links { color: color, ..links_of(old(nodes)@)[this as int] },
        ));
        assert(payloads_of(nodes@) =~= payloads_of(old(nodes)@));
    }

    /// Whether a child of `this` exists and is red.
    #[inline]
    pub(crate) fn has_red_child(nodes: &[Self], this: usize) -> (r: bool)
        requires
            this < nodes.len(),
            forall|d: NodeDirection|
                (#[trigger] links_of(nodes@)[this as int].child(d)) matches Some(c) ==> c
                    < nodes.len(),
        ensures
            r == (red_at(links_of(nodes@), links_of(nodes@)[this as int].left) || red_at(
                links_of(nodes@),
                links_of(nodes@)[this as int].right,
            )),
    {
        let left = nodes[this].get_child(NodeDirection::LeftChild);
        let right = nodes[this].get_child(NodeDirection::RightChild);
        proof {
            let ls = links_of(nodes@);
            assert(ls[this as int].child(NodeDirection::LeftChild) == left);
            assert(ls[this as int].child(NodeDirection::RightChild) == right);
        }
        if let Some(l) = left {
            if nodes[l].color == NodeColor::Red {
                return true;
            }
        }
        if let Some(r) = right {
            if nodes[r].color == NodeColor::Red {
                return true;
            }
        }
        false
    }

    /// The slot of `parent` that holds `this`.
    #[inline]
    pub(crate) fn get_direction(nodes: &[Self], this: usize, parent: usize) -> (r: NodeDirection)
        requires
            parent < nodes.len(),
        ensures
            r == direction_under(links_of(nodes@), this, parent),
    {
        match nodes[parent].childs[0] {
            Some(c) => if c == this {
                NodeDirection::LeftChild
            } else {
                NodeDirection::RightChild
            },
            None => NodeDirection::RightChild,
        }
    }

    /// The child of `this` on the side opposite to `di`, if it has the
    /// colour `color`.
    #[inline]
    pub(crate) fn get_the_other_child_of_color(
        nodes: &[Self],
        this: usize,
        di: &NodeDirection,
        color: NodeColor,
    ) -> (r: Option<usize>)
        requires
            this < nodes.len(),
            links_of(nodes@)[this as int].child(di.other()) matches Some(c) ==> c < nodes.len(),
        ensures
            r == (match links_of(nodes@)[this as int].child(di.other()) {
                Some(c) => if links_of(nodes@)[c as int].color == color {
                    Some(c)
                } else {
                    None
                },
                None => None,
            }),
    {
        let sel: usize = match di {
            NodeDirection::LeftChild => 1,
            NodeDirection::RightChild => 0,
        };
        let child = nodes[this].childs[sel];
        match child {
            None => None,
            Some(c) => if nodes[c].color == color {
                child
            } else {
                None
            },
        }
    }

    /// Attaches `node` as the child of `this` on side `di`.
    #[inline]
    pub(crate) fn insert_child(nodes: &mut [Self], this: usize, di: NodeDirection, node: usize)
        requires
            this < old(nodes).len(),
            node < old(nodes).len(),
        ensures
            final(nodes).len() == old(nodes).len(),
            links_of(final(nodes)@) == attached(links_of(old(nodes)@), this, di, Some(node)),
            payloads_of(final(nodes)@) == payloads_of(old(nodes)@),
    {
        nodes[this].childs[usize::from(di)] = Some(node);
        nodes[node].parent = Some(this);
        reveal(attached);
        assert(links_of(nodes@) =~= attached(links_of(old(nodes)@), this, di, Some(node)));
        assert(payloads_of(nodes@) =~= payloads_of(old(nodes)@));
    }

    /// Attaches `child` on side `di` of `this` and gives it the colour `color`.
    #[inline]
    pub(crate) fn set_child(
        nodes: &mut [Self],
        this: usize,
        child: Option<usize>,
        di: NodeDirection,
        color: NodeColor,
    )
        requires
            this < old(nodes).len(),
            child matches Some(c) ==> c < old(nodes).len(),
        ensures
            final(nodes).len() == old(nodes).len(),
            links_of(final(nodes)@) == attached_colored(
                links_of(old(nodes)@),
                this,
                di,
                child,
                color,
            ),
            payloads_of(final(nodes)@) == payloads_of(old(nodes)@),
    {
        nodes[this].childs[usize::from(di)] = child;
        if let Some(c) = child {
            nodes[c].parent = Some(this);
            nodes[c].color = color;
        }
        reveal(attached_colored);
        assert(links_of(nodes@) =~= attached_colored(
            links_of(old(nodes)@),
            this,
            di,
            child,
            color,
        ));
        assert(payloads_of(nodes@) =~= payloads_of(old(nodes)@));
    }

    /// Attaches `child` on side `di` of `this` and leaves its colour alone.
    #[inline]
    pub(crate) fn set_child_without_color(
        nodes: &mut [Self],
        this: usize,
        child: Option<usize>,
        di: NodeDirection,
    )
        requires
            this < old(nodes).len(),
            child matches Some(c) ==> c < old(nodes).len(),
        ensures
            final(nodes).len() == old(nodes).len(),
            links_of(final(nodes)@) == attached(links_of(old(nodes)@), this, di, child),
            payloads_of(final(nodes)@) == payloads_of(old(nodes)@),
    {
        nodes[this].childs[usize::from(di)] = child;
        if let Some(c) = child {
            nodes[c].parent = Some(this);
        }
        reveal(attached);
        assert(links_of(nodes@) =~= attached(links_of(old(nodes)@), this, di, child));
        assert(payloads_of(nodes@) =~= payloads_of(old(nodes)@));
    }

    /// Rotates `this`, the child of `parent` on side `di`, above `parent`,
    /// which gets the colour `color`.
    #[inline]
    pub(crate) fn rotate_with_parent(
        nodes: &mut [Self],
        this: usize,
        parent: usize,
        di: NodeDirection,
        color: NodeColor,
    )
        requires
            this < old(nodes).len(),
            parent < old(nodes).len(),
            links_of(old(nodes)@)[this as int].child(di.other()) matches Some(c) ==> c < old(
                nodes,
            ).len(),
        ensures
            final(nodes).len() == old(nodes).len(),
            links_of(final(nodes)@) == rotated(links_of(old(nodes)@), this, parent, di, color),
            payloads_of(final(nodes)@) == payloads_of(old(nodes)@),
    {
        let other = if di == NodeDirection::LeftChild {
            NodeDirection::RightChild
        } else {
            NodeDirection::LeftChild
        };
        let inner = nodes[this].childs[usize::from(other)];
        reveal(rotated);
        assert(inner == links_of(nodes@)[this as int].child(di.other()));
        Self::set_child_without_color(nodes, parent, inner, di);
        Self::set_child(nodes, this, Some(parent), other, color)
    }

    /// Puts `this` into the place of `node`: same parent, same colour, and
    /// the slot above `node`, or the root of `tree`, now holds `this`.
    #[inline]
    pub(crate) fn inherit_parent(
        nodes: &mut [Self],
        this: usize,
        node: usize,
        tree: &mut RbTree<Key, T>,
    )
        requires
            this < old(nodes).len(),
            node < old(nodes).len(),
            links_of(old(nodes)@)[node as int].parent matches Some(p) ==> p < old(nodes).len(),
        ensures
            final(nodes).len() == old(nodes).len(),
            links_of(final(nodes)@) == transplanted(links_of(old(nodes)@), this, node),
            payloads_of(final(nodes)@) == payloads_of(old(nodes)@),
            final(tree).root == transplanted_root(
                links_of(old(nodes)@),
                old(tree).root,
                this,
                node,
            ),
            final(tree).order == old(tree).order,
            final(tree).spans == old(tree).spans,
    {
        let parent = nodes[node].parent;
        let color = nodes[node].color;
        nodes[this].parent = parent;
        nodes[this].color = color;
        match parent {
            None => {
                tree.root = Some(this);
            },
            Some(p) => {
                let ghost mid = links_of(nodes@);
                let di = Self::get_direction(nodes, node, p);
                nodes[p].childs[usize::from(di)] = Some(this);
                assert(links_of(nodes@) =~= mid.update(
                    p as int,
                    mid[p as int].with_child(di, Some(this)),
                ));
            },
        }
        reveal(transplanted);
        assert(links_of(nodes@) =~= transplanted(links_of(old(nodes)@), this, node));
        assert(payloads_of(nodes@) =~= payloads_of(old(nodes)@));
    }

    /// Makes `this` a node in no tree again: red, without parent or children.
    #[inline]
    pub(crate) fn unlink(nodes: &mut [Self], this: usize)
        requires
            this < old(nodes).len(),
        ensures
            final(nodes).len() == old(nodes).len(),
            links_of(final(nodes)@) == links_of(old(nodes)@).update(this as int, Links::unlinked()),
            payloads_of(final(nodes)@) == payloads_of(old(nodes)@),
    {
        nodes[this].parent = None;
        nodes[this].childs[0] = None;
        nodes[this].childs[1] = None;
        nodes[this].color = NodeColor::Red;
        assert(links_of(nodes@) =~= links_of(old(nodes)@).update(this as int, Links::unlinked()));
        assert(payloads_of(nodes@) =~= payloads_of(old(nodes)@));
    }

    /// Attaches the subtree `child`, detached earlier, on side `di` of `this`.
    #[inline]
    pub(crate) fn hook_old_child(
        nodes: &mut [Self],
        this: usize,
        child: Option<usize>,
        di: NodeDirection,
    )
        requires
            this < old(nodes).len(),
            child matches Some(c) ==> c < old(nodes).len(),
        ensures
            final(nodes).len() == old(nodes).len(),
            links_of(final(nodes)@) == attached(links_of(old(nodes)@), this, di, child),
            payloads_of(final(nodes)@) == payloads_of(old(nodes)@),
    {
        nodes[this].childs[usize::from(di)] = child;
        if let Some(c) = child {
            nodes[c].parent = Some(this);
        }
        reveal(attached);
        assert(links_of(nodes@) =~= attached(links_of(old(nodes)@), this, di, child));
        assert(payloads_of(nodes@) =~= payloads_of(old(nodes)@));
    }
}

/// Whether `c` names a node and that node is red. An absent child counts as
/// black.
pub open spec fn red_at(ls: Seq<Links>, c: Option<usize>) -> bool {
    match c {
        Some(k) => ls[k as int].color == NodeColor::Red,
        None => false,
    }
}

} // verus!
