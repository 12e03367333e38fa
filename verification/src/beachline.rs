//! The beachline: the arcs that face the sweep line, left to right, with the
//! breakpoints between them, held as a binary tree in an arena.
//!
//! Leaves are arcs and internal nodes are breakpoints. Walking the tree in
//! order lists arc, breakpoint, arc, ..., arc. The tree records that
//! listing as ghost state, together with the stretch of it that each
//! subtree covers, so that every walk is specified against the listing.

use crate::dcel::DCEL;
use crate::dcel::HalfEdge;
use crate::dcel::NIL;
use crate::kernel::Kernel;
use crate::point::rank;
use crate::point::Point;
use vstd::prelude::*;

verus! {

/// Three sites.
pub type TripleSite = (Point, Point, Point);

/// An arc of the beachline.
#[derive(Clone, Copy, Debug)]
pub struct Arc {
    /// The site whose parabola the arc is part of.
    pub site: Point,
    /// The id of the pending circle event that would remove this arc.
    pub site_event: Option<usize>,
}

/// The meeting point of two neighbouring arcs.
#[derive(Clone, Copy, Debug)]
pub struct BreakPoint {
    /// The site of the arc to the left.
    pub left_site: Point,
    /// The site of the arc to the right.
    pub right_site: Point,
    /// The half-edge that the breakpoint is tracing.
    pub halfedge: usize,
}

/// What a node of the beachline holds.
#[derive(Clone, Copy, Debug)]
pub enum BeachItem {
    /// An arc.
    Leaf(Arc),
    /// A breakpoint.
    Internal(BreakPoint),
}

/// A node of the beachline tree.
#[derive(Clone, Copy, Debug)]
pub struct BeachNode {
    /// The parent, if the node is not the root.
    pub parent: Option<usize>,
    /// The left child; breakpoints have one, arcs have none.
    pub left_child: Option<usize>,
    /// The right child; breakpoints have one, arcs have none.
    pub right_child: Option<usize>,
    /// The arc or breakpoint.
    pub item: BeachItem,
}

impl BeachNode {
    /// A leaf node for the arc `item` below `parent`.
    pub fn make_arc(parent: Option<usize>, item: BeachItem) -> (node: BeachNode)
        requires
            item is Leaf,
        ensures
            node == (BeachNode { parent, left_child: None, right_child: None, item }),
    {
        BeachNode { parent, left_child: None, right_child: None, item }
    }
}

/// The beachline.
pub struct BeachLine {
    /// The arena. Nodes that have left the tree stay in it, unreachable.
    pub nodes: Vec<BeachNode>,
    /// The root of the tree, `NIL` while the beachline is empty.
    pub root: usize,
    /// The nodes of the tree in order, left to right.
    pub order: Ghost<Seq<usize>>,
    /// For each arena slot, where the node stands in `order`.
    pub place: Ghost<Seq<int>>,
    /// For each arena slot, where the node's subtree starts in `order`.
    pub first: Ghost<Seq<int>>,
    /// For each arena slot, where the node's subtree ends in `order`
    /// (one past its last node).
    pub end: Ghost<Seq<int>>,
}

impl BeachLine {
    /// Is slot `n` a node of the tree?
    pub open spec fn live(&self, n: usize) -> bool {
        &&& n < self.nodes@.len()
        &&& 0 <= self.place@[n as int] < self.order@.len()
        &&& self.order@[self.place@[n as int]] == n
    }

    /// Is slot `n` an arc of the tree?
    pub open spec fn is_arc(&self, n: usize) -> bool {
        self.live(n) && self.nodes@[n as int].item is Leaf
    }

    /// The site of the arc in slot `n`.
    pub open spec fn site_of(&self, n: usize) -> Point {
        self.nodes@[n as int].item->Leaf_0.site
    }

    /// What has to hold of a node of the tree: its links agree with those of
    /// its neighbours, its subtree covers the stretch of `order` that the
    /// ghost state says, arcs stand at even places and breakpoints at odd
    /// ones, and a breakpoint is labelled with the sites of the arcs next to
    /// it.
    pub open spec fn node_facts(&self, n: usize) -> bool {
        let node = self.nodes@[n as int];
        let lo = self.first@[n as int];
        let p = self.place@[n as int];
        let hi = self.end@[n as int];
        &&& 0 <= lo <= p < hi <= self.order@.len()
        &&& n == self.root ==> node.parent is None && lo == 0 && hi == self.order@.len()
        &&& n != self.root ==> {
            &&& node.parent is Some
            &&& self.live(node.parent->0)
            &&& self.nodes@[node.parent->0 as int].item is Internal
            &&& (self.nodes@[node.parent->0 as int].left_child == Some(n)
                || self.nodes@[node.parent->0 as int].right_child == Some(n))
        }
        &&& match node.item {
            BeachItem::Leaf(_) => {
                &&& node.left_child is None
                &&& node.right_child is None
                &&& lo == p
                &&& hi == p + 1
                &&& p % 2 == 0
            },
            BeachItem::Internal(bp) => {
                &&& node.left_child is Some
                &&& node.right_child is Some
                &&& self.live(node.left_child->0)
                &&& self.live(node.right_child->0)
                &&& self.nodes@[node.left_child->0 as int].parent == Some(n)
                &&& self.nodes@[node.right_child->0 as int].parent == Some(n)
                &&& self.first@[node.left_child->0 as int] == lo
                &&& self.end@[node.left_child->0 as int] == p
                &&& self.first@[node.right_child->0 as int] == p + 1
                &&& self.end@[node.right_child->0 as int] == hi
                &&& p % 2 == 1
                &&& p + 1 < self.order@.len()
                &&& self.nodes@[self.order@[p - 1] as int].item is Leaf
                &&& self.nodes@[self.order@[p + 1] as int].item is Leaf
                &&& bp.left_site == self.site_of(self.order@[p - 1])
                &&& bp.right_site == self.site_of(self.order@[p + 1])
            },
        }
    }

    /// `node_facts`, folded up so that it is unfolded only where asked for.
    #[verifier::opaque]
    pub open spec fn node_wf(&self, n: usize) -> bool {
        self.node_facts(n)
    }

    /// The invariant of the beachline.
    pub open spec fn wf(&self) -> bool {
        &&& self.place@.len() == self.nodes@.len()
        &&& self.first@.len() == self.nodes@.len()
        &&& self.end@.len() == self.nodes@.len()
        &&& (self.order@.len() == 0 <==> self.nodes@.len() == 0)
        &&& self.order@.len() == 0 ==> self.root == NIL
        &&& self.order@.len() > 0 ==> self.live(self.root)
        &&& forall|i: int|
            0 <= i < self.order@.len() ==> {
                &&& (#[trigger] self.order@[i]) < self.nodes@.len()
                &&& self.place@[self.order@[i] as int] == i
            }
        &&& forall|n: usize| #[trigger] self.live(n) ==> self.node_wf(n)
    }

    /// What the invariant says of one node of the tree.
    pub proof fn lemma_node(&self, n: usize)
        requires
            self.wf(),
            self.live(n),
        ensures
            self.node_facts(n),
    {
        reveal(BeachLine::node_wf);
    }

    /// A node of which `node_facts` holds meets the invariant.
    pub proof fn lemma_fold(&self, n: usize)
        requires
            self.node_facts(n),
        ensures
            self.node_wf(n),
    {
        reveal(BeachLine::node_wf);
    }

    /// An empty beachline.
    pub fn new() -> (b: BeachLine)
        ensures
            b.wf(),
            b.order@.len() == 0,
            b.nodes@.len() == 0,
            b.root == NIL,
    {
        BeachLine {
            nodes: Vec::new(),
            root: NIL,
            order: Ghost(Seq::empty()),
            place: Ghost(Seq::empty()),
            first: Ghost(Seq::empty()),
            end: Ghost(Seq::empty()),
        }
    }

    /// Does the beachline hold no arc yet?
    pub fn is_empty(&self) -> (r: bool)
        requires
            self.wf(),
        ensures
            r == (self.order@.len() == 0),
    {
        self.nodes.len() == 0
    }

    /// Makes `pt` the only arc of an empty beachline.
    pub fn insert_point(&mut self, pt: Point)
        requires
            old(self).wf(),
            old(self).order@.len() == 0,
        ensures
            final(self).wf(),
            final(self).order@ == seq![0usize],
            final(self).nodes@ == seq![
                BeachNode {
                    parent: None,
                    left_child: None,
                    right_child: None,
                    item: BeachItem::Leaf(Arc { site: pt, site_event: None }),
                },
            ],
            final(self).root == 0,
    {
        let this_arc = Arc { site: pt, site_event: None };
        let this_node = BeachNode::make_arc(None, BeachItem::Leaf(this_arc));
        self.nodes.push(this_node);
        self.root = 0;
        proof {
            self.order@ = seq![0usize];
            self.place@ = seq![0int];
            self.first@ = seq![0int];
            self.end@ = seq![1int];
            assert(self.nodes@ =~= seq![this_node]);
            assert forall|n: usize| #[trigger] self.live(n) implies self.node_wf(n) by {
                self.lemma_fold(n);
            }
        }
    }

    /// The leftmost node of the subtree below `root`.
    pub fn tree_minimum(&self, root: usize) -> (r: usize)
        requires
            self.wf(),
            self.live(root),
        ensures
            self.is_arc(r),
            self.place@[r as int] == self.first@[root as int],
    {
        let mut current_node = root;
        loop
            invariant
                self.wf(),
                self.live(root),
                self.live(current_node),
                self.first@[current_node as int] == self.first@[root as int],
            ensures
                self.is_arc(current_node),
                self.place@[current_node as int] == self.first@[root as int],
            decreases self.place@[current_node as int] - self.first@[current_node as int],
        {
            proof {
                self.lemma_node(current_node);
            }
            match self.nodes[current_node].left_child {
                Some(left) => {
                    proof {
                        self.lemma_node(left);
                    }
                    current_node = left;
                },
                None => {
                    break ;
                },
            }
        }
        current_node
    }

    /// The rightmost node of the subtree below `root`.
    pub fn tree_maximum(&self, root: usize) -> (r: usize)
        requires
            self.wf(),
            self.live(root),
        ensures
            self.is_arc(r),
            self.place@[r as int] == self.end@[root as int] - 1,
    {
        let mut current_node = root;
        loop
            invariant
                self.wf(),
                self.live(root),
                self.live(current_node),
                self.end@[current_node as int] == self.end@[root as int],
            ensures
                self.is_arc(current_node),
                self.place@[current_node as int] == self.end@[root as int] - 1,
            decreases self.end@[current_node as int] - self.place@[current_node as int],
        {
            proof {
                self.lemma_node(current_node);
            }
            match self.nodes[current_node].right_child {
                Some(right) => {
                    proof {
                        self.lemma_node(right);
                    }
                    current_node = right;
                },
                None => {
                    break ;
                },
            }
        }
        current_node
    }

    /// The node that follows `node` in order, if any.
    pub fn successor(&self, node: usize) -> (r: Option<usize>)
        requires
            self.wf(),
            self.live(node),
        ensures
            self.place@[node as int] + 1 < self.order@.len() ==> r == Some(
                self.order@[self.place@[node as int] + 1],
            ),
            self.place@[node as int] + 1 >= self.order@.len() ==> r is None,
    {
        proof {
            self.lemma_node(node);
        }
        if let Some(right) = self.nodes[node].right_child {
            return Some(self.tree_minimum(right));
        }
        let mut current_node = node;
        let mut current_parent = self.nodes[node].parent;
        loop
            invariant
                self.wf(),
                self.live(current_node),
                self.live(node),
                self.end@[current_node as int] == self.place@[node as int] + 1,
                current_parent == self.nodes@[current_node as int].parent,
            ensures
                self.place@[node as int] + 1 < self.order@.len() ==> current_parent == Some(
                    self.order@[self.place@[node as int] + 1],
                ),
                self.place@[node as int] + 1 >= self.order@.len() ==> current_parent is None,
            decreases
                self.order@.len() - (self.end@[current_node as int] - self.first@[current_node as int]),
        {
            proof {
                self.lemma_node(current_node);
                if current_parent is Some {
                    self.lemma_node(current_parent->0);
                }
            }
            match current_parent {
                None => {
                    break ;
                },
                Some(p) => {
                    let climbs = match self.nodes[p].right_child {
                        Some(c) => c == current_node,
                        None => false,
                    };
                    if !climbs {
                        break ;
                    }
                    current_node = p;
                    current_parent = self.nodes[p].parent;
                },
            }
        }
        current_parent
    }

    /// The node that precedes `node` in order, if any.
    pub fn predecessor(&self, node: usize) -> (r: Option<usize>)
        requires
            self.wf(),
            self.live(node),
        ensures
            self.place@[node as int] >= 1 ==> r == Some(self.order@[self.place@[node as int] - 1]),
            self.place@[node as int] < 1 ==> r is None,
    {
        proof {
            self.lemma_node(node);
        }
        if let Some(left) = self.nodes[node].left_child {
            return Some(self.tree_maximum(left));
        }
        let mut current_node = node;
        let mut current_parent = self.nodes[node].parent;
        loop
            invariant
                self.wf(),
                self.live(current_node),
                self.live(node),
                self.first@[current_node as int] == self.place@[node as int],
                current_parent == self.nodes@[current_node as int].parent,
            ensures
                self.place@[node as int] >= 1 ==> current_parent == Some(
                    self.order@[self.place@[node as int] - 1],
                ),
                self.place@[node as int] < 1 ==> current_parent is None,
            decreases
                self.order@.len() - (self.end@[current_node as int] - self.first@[current_node as int]),
        {
            proof {
                self.lemma_node(current_node);
                if current_parent is Some {
                    self.lemma_node(current_parent->0);
                }
            }
            match current_parent {
                None => {
                    break ;
                },
                Some(p) => {
                    let climbs = match self.nodes[p].left_child {
                        Some(c) => c == current_node,
                        None => false,
                    };
                    if !climbs {
                        break ;
                    }
                    current_node = p;
                    current_parent = self.nodes[p].parent;
                },
            }
        }
        current_parent
    }
    /// Is `a` a node on the way from the root down to `n`, other than `n`?
    pub open spec fn is_ancestor(&self, a: usize, n: usize) -> bool
        decreases self.order@.len() - (self.end@[n as int] - self.first@[n as int]),
        when self.wf() && self.live(n)
    {
        match self.nodes@[n as int].parent {
            None => false,
            Some(p) => {
                proof {
                    self.lemma_node(n);
                    self.lemma_node(p);
                }
                p == a || self.is_ancestor(a, p)
            },
        }
    }

    /// Did the kernel, asked for the breakpoint of `a` with the sweep line at
    /// the height of `pt`, give an answer that sends `pt` to the side of `a`
    /// on which the places from `lo` up to `hi` lie?
    pub open spec fn sent_to<K: Kernel>(&self, kernel: &K, pt: Point, a: usize, lo: int, hi: int) -> bool {
        exists|x: u64|
            {
                &&& #[trigger] call_ensures(
                    K::get_breakpoint_x,
                    (
                        kernel,
                        self.nodes@[a as int].item->Internal_0.left_site,
                        self.nodes@[a as int].item->Internal_0.right_site,
                        pt.y,
                    ),
                    x,
                )
                &&& if rank(pt.x) < rank(x) {
                    hi <= self.place@[a as int]
                } else {
                    self.place@[a as int] < lo
                }
            }
    }

    /// The arc that lies above `pt`: the leaf reached from the root by going
    /// left at each breakpoint that the kernel places to the right of `pt`
    /// when the sweep line is at the height of `pt`, and right at the others.
    pub fn get_arc_above<K: Kernel>(&self, kernel: &K, pt: Point) -> (r: usize)
        requires
            self.wf(),
            self.order@.len() > 0,
        ensures
            self.is_arc(r),
            forall|a: usize| #[trigger]
                self.is_ancestor(a, r) ==> self.sent_to(
                    kernel,
                    pt,
                    a,
                    self.place@[r as int],
                    self.place@[r as int] + 1,
                ),
    {
        let mut current_node = self.root;
        proof {
            self.lemma_node(self.root);
        }
        loop
            invariant
                self.wf(),
                self.live(current_node),
                forall|a: usize| #[trigger]
                    self.is_ancestor(a, current_node) ==> self.sent_to(
                        kernel,
                        pt,
                        a,
                        self.first@[current_node as int],
                        self.end@[current_node as int],
                    ),
            ensures
                self.is_arc(current_node),
                forall|a: usize| #[trigger]
                    self.is_ancestor(a, current_node) ==> self.sent_to(
                        kernel,
                        pt,
                        a,
                        self.first@[current_node as int],
                        self.end@[current_node as int],
                    ),
            decreases self.end@[current_node as int] - self.first@[current_node as int],
        {
            proof {
                self.lemma_node(current_node);
            }
            match self.nodes[current_node].item {
                BeachItem::Leaf(_) => {
                    break ;
                },
                BeachItem::Internal(breakpoint) => {
                    let x_bp = kernel.get_breakpoint_x(breakpoint.left_site, breakpoint.right_site, pt.y());
                    let next = if crate::point::coord_lt(pt.x(), x_bp) {
                        self.nodes[current_node].left_child.unwrap()
                    } else {
                        self.nodes[current_node].right_child.unwrap()
                    };
                    proof {
                        assert forall|a: usize| #[trigger] self.is_ancestor(a, next) implies self.sent_to(
                            kernel,
                            pt,
                            a,
                            self.first@[next as int],
                            self.end@[next as int],
                        ) by {
                            if a == current_node {
                            } else {
                                assert(self.is_ancestor(a, current_node));
                                assert(self.sent_to(
                                    kernel,
                                    pt,
                                    a,
                                    self.first@[current_node as int],
                                    self.end@[current_node as int],
                                ));
                            }
                        }
                    }
                    current_node = next;
                },
            }
        }
        proof {
            self.lemma_node(current_node);
        }
        current_node
    }
    /// The node at place `i` of the order, if there is such a place.
    pub open spec fn at(&self, i: int) -> Option<usize> {
        if 0 <= i < self.order@.len() {
            Some(self.order@[i])
        } else {
            None
        }
    }

    /// The arc to the left of `node`, which is the node two places before it.
    pub fn get_left_arc(&self, node: Option<usize>) -> (r: Option<usize>)
        requires
            self.wf(),
            node is Some ==> self.live(node->0),
        ensures
            node is None ==> r is None,
            node is Some ==> r == self.at(self.place@[node->0 as int] - 2),
    {
        match node {
            None => None,
            Some(node) => {
                match self.predecessor(node) {
                    Some(left) => {
                        proof {
                            assert(self.order@[self.place@[node as int] - 1] == left);
                        }
                        self.predecessor(left)
                    },
                    None => None,
                }
            },
        }
    }

    /// The arc to the right of `node`, which is the node two places after it.
    pub fn get_right_arc(&self, node: Option<usize>) -> (r: Option<usize>)
        requires
            self.wf(),
            node is Some ==> self.live(node->0),
        ensures
            node is None ==> r is None,
            node is Some ==> r == self.at(self.place@[node->0 as int] + 2),
    {
        match node {
            None => None,
            Some(node) => {
                match self.successor(node) {
                    Some(right) => {
                        proof {
                            assert(self.order@[self.place@[node as int] + 1] == right);
                        }
                        self.successor(right)
                    },
                    None => None,
                }
            },
        }
    }

    /// The site of an arc; nothing for a breakpoint and for no node.
    pub fn get_site(&self, node: Option<usize>) -> (r: Option<Point>)
        requires
            node is Some ==> node->0 < self.nodes@.len(),
        ensures
            r == match node {
                Some(n) => match self.nodes@[n as int].item {
                    BeachItem::Leaf(arc) => Some(arc.site),
                    BeachItem::Internal(_) => None,
                },
                None => None,
            },
    {
        match node {
            None => None,
            Some(node) => match self.nodes[node].item {
                BeachItem::Leaf(arc) => Some(arc.site),
                BeachItem::Internal(_) => None,
            },
        }
    }

    /// The half-edge that a breakpoint is tracing; nothing for an arc.
    pub fn get_edge(&self, node: usize) -> (r: Option<usize>)
        requires
            node < self.nodes@.len(),
        ensures
            r == match self.nodes@[node as int].item {
                BeachItem::Leaf(_) => None,
                BeachItem::Internal(bp) => Some(bp.halfedge),
            },
    {
        match self.nodes[node].item {
            BeachItem::Leaf(_) => None,
            BeachItem::Internal(bp) => Some(bp.halfedge),
        }
    }

    /// The sites of `node` and of the two arcs to its left, left to right.
    pub fn get_leftward_triple(&self, node: usize) -> (r: Option<TripleSite>)
        requires
            self.wf(),
            self.live(node),
        ensures
            r == if self.is_arc(node) && self.place@[node as int] >= 4 {
                Some(
                    (
                        self.site_of(self.order@[self.place@[node as int] - 4]),
                        self.site_of(self.order@[self.place@[node as int] - 2]),
                        self.site_of(node),
                    ),
                )
            } else {
                None
            },
    {
        proof {
            self.lemma_node(node);
        }
        let left_arc = self.get_left_arc(Some(node));
        proof {
            self.lemma_at_live(self.place@[node as int] - 2);
        }
        let left_left_arc = self.get_left_arc(left_arc);
        proof {
            self.lemma_at_live(self.place@[node as int] - 4);
        }
        let this_site = self.get_site(Some(node));
        let left_site = self.get_site(left_arc);
        let left_left_site = self.get_site(left_left_arc);
        match (left_left_site, left_site, this_site) {
            (Some(a), Some(b), Some(c)) => Some((a, b, c)),
            _ => None,
        }
    }

    /// The sites of `node` and of the two arcs to its right, left to right.
    pub fn get_rightward_triple(&self, node: usize) -> (r: Option<TripleSite>)
        requires
            self.wf(),
            self.live(node),
        ensures
            r == if self.is_arc(node) && self.place@[node as int] + 4 < self.order@.len() {
                Some(
                    (
                        self.site_of(node),
                        self.site_of(self.order@[self.place@[node as int] + 2]),
                        self.site_of(self.order@[self.place@[node as int] + 4]),
                    ),
                )
            } else {
                None
            },
    {
        proof {
            self.lemma_node(node);
        }
        let right_arc = self.get_right_arc(Some(node));
        proof {
            self.lemma_at_live(self.place@[node as int] + 2);
        }
        let right_right_arc = self.get_right_arc(right_arc);
        proof {
            self.lemma_at_live(self.place@[node as int] + 4);
        }
        let this_site = self.get_site(Some(node));
        let right_site = self.get_site(right_arc);
        let right_right_site = self.get_site(right_right_arc);
        match (this_site, right_site, right_right_site) {
            (Some(a), Some(b), Some(c)) => Some((a, b, c)),
            _ => None,
        }
    }

    /// The sites of `node` and of the arcs on either side, left to right.
    pub fn get_centered_triple(&self, node: usize) -> (r: Option<TripleSite>)
        requires
            self.wf(),
            self.live(node),
        ensures
            r == if self.is_arc(node) && self.place@[node as int] >= 2 && self.place@[node as int] + 2
                < self.order@.len() {
                Some(
                    (
                        self.site_of(self.order@[self.place@[node as int] - 2]),
                        self.site_of(node),
                        self.site_of(self.order@[self.place@[node as int] + 2]),
                    ),
                )
            } else {
                None
            },
    {
        proof {
            self.lemma_node(node);
        }
        let right_arc = self.get_right_arc(Some(node));
        let left_arc = self.get_left_arc(Some(node));
        proof {
            self.lemma_at_live(self.place@[node as int] + 2);
            self.lemma_at_live(self.place@[node as int] - 2);
        }
        let this_site = self.get_site(Some(node));
        let right_site = self.get_site(right_arc);
        let left_site = self.get_site(left_arc);
        match (left_site, this_site, right_site) {
            (Some(a), Some(b), Some(c)) => Some((a, b, c)),
            _ => None,
        }
    }

    /// The node at a place of the order is a node of the tree and stands at
    /// that place; an arc if the place is even, a breakpoint if it is odd.
    pub proof fn lemma_at_live(&self, i: int)
        requires
            self.wf(),
        ensures
            0 <= i < self.order@.len() ==> {
                &&& self.live(self.order@[i])
                &&& self.place@[self.order@[i] as int] == i
                &&& self.node_facts(self.order@[i])
                &&& (self.nodes@[self.order@[i] as int].item is Leaf <==> i % 2 == 0)
            },
    {
        if 0 <= i < self.order@.len() {
            self.lemma_node(self.order@[i]);
        }
    }

    /// Gives a breakpoint another half-edge to trace.
    pub fn set_edge(&mut self, node: usize, edge: usize)
        requires
            old(self).wf(),
            node < old(self).nodes@.len(),
            old(self).nodes@[node as int].item is Internal,
        ensures
            final(self).wf(),
            final(self).order == old(self).order,
            final(self).place == old(self).place,
            final(self).first == old(self).first,
            final(self).end == old(self).end,
            final(self).root == old(self).root,
            final(self).nodes@ == old(self).nodes@.update(
                node as int,
                BeachNode {
                    item: BeachItem::Internal(
                        BreakPoint { halfedge: edge, ..old(self).nodes@[node as int].item->Internal_0 },
                    ),
                    ..old(self).nodes@[node as int]
                },
            ),
    {
        let mut changed = self.nodes[node];
        match changed.item {
            BeachItem::Internal(bp) => {
                changed.item = BeachItem::Internal(
                    BreakPoint { left_site: bp.left_site, right_site: bp.right_site, halfedge: edge },
                );
            },
            BeachItem::Leaf(_) => {},
        }
        self.nodes.set(node, changed);
        proof {
            assert forall|n: usize| #[trigger] self.live(n) implies self.node_wf(n) by {
                assert(old(self).live(n));
                old(self).lemma_node(n);
                self.lemma_fold(n);
            }
        }
    }

    /// Sets or clears the pending circle event of an arc.
    pub fn set_site_event(&mut self, arc: usize, event: Option<usize>)
        requires
            old(self).wf(),
            arc < old(self).nodes@.len(),
            old(self).nodes@[arc as int].item is Leaf,
        ensures
            final(self).wf(),
            final(self).order == old(self).order,
            final(self).place == old(self).place,
            final(self).first == old(self).first,
            final(self).end == old(self).end,
            final(self).root == old(self).root,
            final(self).nodes@ == old(self).nodes@.update(
                arc as int,
                BeachNode {
                    item: BeachItem::Leaf(Arc { site: old(self).site_of(arc), site_event: event }),
                    ..old(self).nodes@[arc as int]
                },
            ),
    {
        let site = self.get_site(Some(arc)).unwrap();
        let mut node = self.nodes[arc];
        node.item = BeachItem::Leaf(Arc { site, site_event: event });
        self.nodes.set(arc, node);
        proof {
            assert forall|n: usize| #[trigger] self.live(n) implies self.node_wf(n) by {
                assert(old(self).live(n));
                old(self).lemma_node(n);
                self.lemma_fold(n);
            }
        }
    }
}

/// The order after the arc at place `p` has been split: in its place stand
/// the five nodes that the split adds to an arena of `n` nodes, which are a
/// copy of the arc, the breakpoint on the left, the new arc, the breakpoint on
/// the right, and a second copy of the arc.
pub open spec fn split_order(order: Seq<usize>, p: int, n: usize) -> Seq<usize> {
    order.subrange(0, p) + seq![
        (n + 2) as usize,
        n,
        (n + 3) as usize,
        (n + 1) as usize,
        (n + 4) as usize,
    ] + order.subrange(p + 1, order.len() as int)
}

/// The arena after the arc in slot `arc` has been split by a new site `pt`
/// whose breakpoints trace the half-edges `edge` and `edge + 1`.
pub open spec fn split_nodes(nodes: Seq<BeachNode>, arc: usize, pt: Point, edge: usize) -> Seq<
    BeachNode,
> {
    let n = nodes.len() as usize;
    let site = nodes[arc as int].item->Leaf_0.site;
    let parent = nodes[arc as int].parent;
    let relinked = match parent {
        None => nodes,
        Some(q) => if nodes[q as int].right_child == Some(arc) {
            nodes.update(q as int, BeachNode { right_child: Some(n), ..nodes[q as int] })
        } else {
            nodes.update(q as int, BeachNode { left_child: Some(n), ..nodes[q as int] })
        },
    };
    relinked.push(
        BeachNode {
            parent,
            left_child: Some((n + 2) as usize),
            right_child: Some((n + 1) as usize),
            item: BeachItem::Internal(BreakPoint { left_site: site, right_site: pt, halfedge: edge }),
        },
    ).push(
        BeachNode {
            parent: Some(n),
            left_child: Some((n + 3) as usize),
            right_child: Some((n + 4) as usize),
            item: BeachItem::Internal(
                BreakPoint { left_site: pt, right_site: site, halfedge: (edge + 1) as usize },
            ),
        },
    ).push(
        BeachNode {
            parent: Some(n),
            left_child: None,
            right_child: None,
            item: BeachItem::Leaf(Arc { site, site_event: None }),
        },
    ).push(
        BeachNode {
            parent: Some((n + 1) as usize),
            left_child: None,
            right_child: None,
            item: BeachItem::Leaf(Arc { site: pt, site_event: None }),
        },
    ).push(
        BeachNode {
            parent: Some((n + 1) as usize),
            left_child: None,
            right_child: None,
            item: BeachItem::Leaf(Arc { site, site_event: None }),
        },
    )
}

/// Where a place of the order before a split at `p` lies after it.
pub open spec fn split_shift(i: int, p: int) -> int {
    if i > p {
        i + 4
    } else {
        i
    }
}

/// Splits the arc in slot `arc` in two, with a new arc for the site `pt`
/// between the halves and a breakpoint on either side of it, and gives the
/// two breakpoints a fresh pair of twin half-edges to trace. Returns the
/// slot of the new arc.
pub fn split_arc(arc: usize, pt: Point, beachline: &mut BeachLine, dcel: &mut DCEL) -> (r: usize)
    requires
        old(beachline).wf(),
        old(beachline).is_arc(arc),
        old(beachline).nodes@.len() + 5 < NIL,
        old(dcel).wf(),
        old(dcel).halfedges@.len() + 2 < NIL,
    ensures
        final(beachline).wf(),
        final(dcel).wf(),
        r == old(beachline).nodes@.len() + 3,
        final(beachline).is_arc(r),
        final(beachline).place@[r as int] == old(beachline).place@[arc as int] + 2,
        final(beachline).order@ == split_order(
            old(beachline).order@,
            old(beachline).place@[arc as int],
            old(beachline).nodes@.len() as usize,
        ),
        final(beachline).nodes@ == split_nodes(
            old(beachline).nodes@,
            arc,
            pt,
            old(dcel).halfedges@.len() as usize,
        ),
        final(beachline).root == if old(beachline).nodes@[arc as int].parent is None {
            old(beachline).nodes@.len() as usize
        } else {
            old(beachline).root
        },
        forall|m: usize|
            #![trigger old(beachline).live(m)]
            #![trigger final(beachline).live(m)]
            m < old(beachline).nodes@.len() ==> {
                &&& final(beachline).live(m) == (old(beachline).live(m) && m != arc)
                &&& old(beachline).live(m) && m != arc ==> final(beachline).place@[m as int]
                    == split_shift(old(beachline).place@[m as int], old(beachline).place@[arc as int])
            },
        forall|m: int|
            0 <= m < old(beachline).nodes@.len() ==> (#[trigger] final(beachline).nodes@[m]).item == old(beachline).nodes@[m].item,
        final(beachline).nodes@.len() == old(beachline).nodes@.len() + 5,
        final(beachline).order@.len() == old(beachline).order@.len() + 4,
        final(dcel).halfedges@ == old(dcel).halfedges@.push(
            HalfEdge {
                origin: NIL,
                twin: (old(dcel).halfedges@.len() + 1) as usize,
                next: NIL,
                face: NIL,
                prev: NIL,
                alive: true,
            },
        ).push(
            HalfEdge {
                origin: NIL,
                twin: old(dcel).halfedges@.len() as usize,
                next: NIL,
                face: NIL,
                prev: NIL,
                alive: true,
            },
        ),
        final(dcel).vertices@ == old(dcel).vertices@,
        final(dcel).faces@ == old(dcel).faces@,
{
    proof {
        beachline.lemma_node(arc);
    }
    let parent = beachline.nodes[arc].parent;
    let arc_pt = beachline.get_site(Some(arc)).unwrap();

    let (twin1, twin2) = dcel.add_twins();

    let breakpoint_ab = BreakPoint { left_site: arc_pt, right_site: pt, halfedge: twin1 };
    let breakpoint_ba = BreakPoint { left_site: pt, right_site: arc_pt, halfedge: twin2 };

    let internal_ab = BeachItem::Internal(breakpoint_ab);
    let internal_ba = BeachItem::Internal(breakpoint_ba);

    let arc_a1 = Arc { site: arc_pt, site_event: None };
    let arc_a2 = Arc { site: arc_pt, site_event: None };
    let arc_b = Arc { site: pt, site_event: None };

    let ind_ab = beachline.nodes.len();
    let ind_ba = ind_ab + 1;
    let ind_a1 = ind_ab + 2;
    let ind_b = ind_ab + 3;
    let ind_a2 = ind_ab + 4;

    let ghost before = *beachline;
    let ghost p = before.place@[arc as int];
    let ghost len = before.order@.len() as int;

    if let Some(parent_ind) = parent {
        proof {
            before.lemma_node(parent_ind);
        }
        let mut parent_node = beachline.nodes[parent_ind];
        if parent_node.right_child == Some(arc) {
            parent_node.right_child = Some(ind_ab);
        } else {
            parent_node.left_child = Some(ind_ab);
        }
        beachline.nodes.set(parent_ind, parent_node);
    } else {
        beachline.root = ind_ab;
    }
    let node_ab = BeachNode {
        parent: parent,
        left_child: Some(ind_a1),
        right_child: Some(ind_ba),
        item: internal_ab,
    };
    beachline.nodes.push(node_ab);

    let node_ba = BeachNode {
        parent: Some(ind_ab),
        left_child: Some(ind_b),
        right_child: Some(ind_a2),
        item: internal_ba,
    };
    beachline.nodes.push(node_ba);

    let node_a1 = BeachNode::make_arc(Some(ind_ab), BeachItem::Leaf(arc_a1));
    beachline.nodes.push(node_a1);

    let node_b = BeachNode::make_arc(Some(ind_ba), BeachItem::Leaf(arc_b));
    beachline.nodes.push(node_b);

    let node_a2 = BeachNode::make_arc(Some(ind_ba), BeachItem::Leaf(arc_a2));
    beachline.nodes.push(node_a2);

    proof {
        let n = ind_ab;
        beachline.order@ = split_order(before.order@, p, n);
        beachline.place@ = Seq::new(
            (n + 5) as nat,
            |m: int|
                if m < n {
                    split_shift(before.place@[m], p)
                } else if m == n {
                    p + 1
                } else if m == n + 1 {
                    p + 3
                } else if m == n + 2 {
                    p
                } else if m == n + 3 {
                    p + 2
                } else {
                    p + 4
                },
        );
        beachline.first@ = Seq::new(
            (n + 5) as nat,
            |m: int|
                if m < n {
                    split_shift(before.first@[m], p)
                } else if m == n {
                    p
                } else if m == n + 1 {
                    p + 2
                } else if m == n + 2 {
                    p
                } else if m == n + 3 {
                    p + 2
                } else {
                    p + 4
                },
        );
        beachline.end@ = Seq::new(
            (n + 5) as nat,
            |m: int|
                if m < n {
                    split_shift(before.end@[m], p)
                } else if m == n {
                    p + 5
                } else if m == n + 1 {
                    p + 5
                } else if m == n + 2 {
                    p + 1
                } else if m == n + 3 {
                    p + 3
                } else {
                    p + 5
                },
        );
        assert(beachline.nodes@ =~= split_nodes(before.nodes@, arc, pt, twin1));
        assert(split_step(before, *beachline, arc, pt, twin1));
        lemma_split_wf(before, *beachline, arc, pt, twin1);
    }
    ind_b
}

/// How each slot and each place of the beachline `after` a split of `arc`
/// relates to the beachline `before` it.
pub open spec fn split_step(before: BeachLine, after: BeachLine, arc: usize, pt: Point, edge: usize) -> bool {
    let n = before.nodes@.len() as usize;
    let p = before.place@[arc as int];
    let site = before.site_of(arc);
    let parent = before.nodes@[arc as int].parent;
    &&& after.nodes@.len() == n + 5
    &&& after.place@.len() == n + 5
    &&& after.first@.len() == n + 5
    &&& after.end@.len() == n + 5
    &&& after.order@.len() == before.order@.len() + 4
    &&& after.root == if parent is None {
        n
    } else {
        before.root
    }
    &&& forall|x: int|
        0 <= x < n ==> {
            &&& (#[trigger] after.nodes@[x]).item == before.nodes@[x].item
            &&& after.nodes@[x].parent == before.nodes@[x].parent
            &&& after.nodes@[x].left_child == if parent == Some(x as usize) && before.nodes@[x].left_child
                == Some(arc) {
                Some(n)
            } else {
                before.nodes@[x].left_child
            }
            &&& after.nodes@[x].right_child == if parent == Some(x as usize)
                && before.nodes@[x].right_child == Some(arc) {
                Some(n)
            } else {
                before.nodes@[x].right_child
            }
        }
    &&& forall|x: int|
        0 <= x < n ==> {
            &&& #[trigger] after.place@[x] == split_shift(before.place@[x], p)
            &&& after.first@[x] == split_shift(before.first@[x], p)
            &&& after.end@[x] == split_shift(before.end@[x], p)
        }
    &&& forall|i: int|
        0 <= i < before.order@.len() + 4 ==> #[trigger] after.order@[i] == if i < p {
            before.order@[i]
        } else if i == p {
            (n + 2) as usize
        } else if i == p + 1 {
            n
        } else if i == p + 2 {
            (n + 3) as usize
        } else if i == p + 3 {
            (n + 1) as usize
        } else if i == p + 4 {
            (n + 4) as usize
        } else {
            before.order@[i - 4]
        }
    &&& after.nodes@[n as int] == (BeachNode {
        parent,
        left_child: Some((n + 2) as usize),
        right_child: Some((n + 1) as usize),
        item: BeachItem::Internal(BreakPoint { left_site: site, right_site: pt, halfedge: edge }),
    })
    &&& after.nodes@[n + 1] == (BeachNode {
        parent: Some(n),
        left_child: Some((n + 3) as usize),
        right_child: Some((n + 4) as usize),
        item: BeachItem::Internal(
            BreakPoint { left_site: pt, right_site: site, halfedge: (edge + 1) as usize },
        ),
    })
    &&& after.nodes@[n + 2] == (BeachNode {
        parent: Some(n),
        left_child: None,
        right_child: None,
        item: BeachItem::Leaf(Arc { site, site_event: None }),
    })
    &&& after.nodes@[n + 3] == (BeachNode {
        parent: Some((n + 1) as usize),
        left_child: None,
        right_child: None,
        item: BeachItem::Leaf(Arc { site: pt, site_event: None }),
    })
    &&& after.nodes@[n + 4] == (BeachNode {
        parent: Some((n + 1) as usize),
        left_child: None,
        right_child: None,
        item: BeachItem::Leaf(Arc { site, site_event: None }),
    })
    &&& after.place@[n as int] == p + 1
    &&& after.place@[n + 1] == p + 3
    &&& after.place@[n + 2] == p
    &&& after.place@[n + 3] == p + 2
    &&& after.place@[n + 4] == p + 4
    &&& after.first@[n as int] == p
    &&& after.first@[n + 1] == p + 2
    &&& after.first@[n + 2] == p
    &&& after.first@[n + 3] == p + 2
    &&& after.first@[n + 4] == p + 4
    &&& after.end@[n as int] == p + 5
    &&& after.end@[n + 1] == p + 5
    &&& after.end@[n + 2] == p + 1
    &&& after.end@[n + 3] == p + 3
    &&& after.end@[n + 4] == p + 5
}

/// After a split, the slots of the old arena hold nodes of the tree exactly
/// where they did before, but for the slot of the arc that was split.
proof fn lemma_split_live(before: BeachLine, after: BeachLine, arc: usize, pt: Point, edge: usize, m: usize)
    requires
        before.wf(),
        before.is_arc(arc),
        before.nodes@.len() + 5 < NIL,
        split_step(before, after, arc, pt, edge),
        m < before.nodes@.len(),
    ensures
        after.live(m) == (before.live(m) && m != arc),
{
    let p = before.place@[arc as int];
    if before.live(m) && m != arc {
        let j = before.place@[m as int];
        assert(before.order@[j] == m);
        assert(j != p);
        assert(after.order@[split_shift(j, p)] == m);
    }
    if after.live(m) {
        let j = after.place@[m as int];
        let j0 = before.place@[m as int];
        assert(after.order@[j] == m);
        assert(j == split_shift(j0, p));
        if j0 > p {
            assert(after.order@[j] == before.order@[j - 4]);
        } else {
            assert(j != p);
            assert(after.order@[j] == before.order@[j]);
        }
    }
}

/// After a split, the invariant holds of each of the five new nodes.
#[verifier::spinoff_prover]
proof fn lemma_split_new_node(before: BeachLine, after: BeachLine, arc: usize, pt: Point, edge: usize, m: usize)
    requires
        before.wf(),
        before.is_arc(arc),
        before.nodes@.len() + 5 < NIL,
        split_step(before, after, arc, pt, edge),
        before.nodes@.len() <= m < before.nodes@.len() + 5,
    ensures
        after.live(m),
        after.node_facts(m),
{
    let n = before.nodes@.len() as usize;
    let p = before.place@[arc as int];
    before.lemma_node(arc);
    assert(after.order@[p] == n + 2);
    assert(after.order@[p + 1] == n);
    assert(after.order@[p + 2] == n + 3);
    assert(after.order@[p + 3] == n + 1);
    assert(after.order@[p + 4] == n + 4);
    if before.nodes@[arc as int].parent is Some {
        let q = before.nodes@[arc as int].parent->0;
        before.lemma_node(q);
        lemma_split_live(before, after, arc, pt, edge, q);
        assert(after.nodes@[q as int].item is Internal);
    }
}

/// After a split, the invariant holds of each node that was in the tree
/// before and still is.
#[verifier::spinoff_prover]
proof fn lemma_split_old_node(before: BeachLine, after: BeachLine, arc: usize, pt: Point, edge: usize, m: usize)
    requires
        before.wf(),
        before.is_arc(arc),
        before.nodes@.len() + 5 < NIL,
        split_step(before, after, arc, pt, edge),
        before.live(m),
        m != arc,
    ensures
        after.node_facts(m),
{
    let n = before.nodes@.len() as usize;
    let p = before.place@[arc as int];
    before.lemma_node(arc);
    before.lemma_node(m);
    let node = before.nodes@[m as int];
    let j0 = before.place@[m as int];
    assert(before.order@[j0] == m);
    assert(j0 != p);
    assert(after.nodes@[m as int].item == node.item);
    if node.parent is Some {
        let q = node.parent->0;
        before.lemma_node(q);
        lemma_split_live(before, after, arc, pt, edge, q);
        assert(after.nodes@[q as int].item is Internal);
    }
    if node.item is Internal {
        let l = node.left_child->0;
        let r = node.right_child->0;
        before.lemma_node(l);
        before.lemma_node(r);
        before.lemma_at_live(j0 - 1);
        before.lemma_at_live(j0 + 1);
        lemma_split_live(before, after, arc, pt, edge, l);
        lemma_split_live(before, after, arc, pt, edge, r);
        lemma_split_new_node(before, after, arc, pt, edge, n);
        assert(after.order@[p] == n + 2);
        assert(after.order@[p + 4] == n + 4);
        assert(after.order@[split_shift(j0, p) - 1] == if j0 - 1 == p {
            (n + 4) as usize
        } else {
            before.order@[j0 - 1]
        });
        assert(after.order@[split_shift(j0, p) + 1] == if j0 + 1 == p {
            (n + 2) as usize
        } else {
            before.order@[j0 + 1]
        });
    }
}

/// A split turns a well-formed beachline into a well-formed one.
proof fn lemma_split_wf(before: BeachLine, after: BeachLine, arc: usize, pt: Point, edge: usize)
    requires
        before.wf(),
        before.is_arc(arc),
        before.nodes@.len() + 5 < NIL,
        split_step(before, after, arc, pt, edge),
    ensures
        after.wf(),
        forall|m: usize|
            #![trigger before.live(m)]
            #![trigger after.live(m)]
            m < before.nodes@.len() ==> after.live(m) == (before.live(m) && m != arc),
        after.is_arc((before.nodes@.len() + 3) as usize),
{
    let n = before.nodes@.len() as usize;
    let p = before.place@[arc as int];
    let len = before.order@.len() as int;
    before.lemma_node(arc);
    assert forall|i: int| 0 <= i < len + 4 implies {
        &&& (#[trigger] after.order@[i]) < after.nodes@.len()
        &&& after.place@[after.order@[i] as int] == i
    } by {
        if i < p {
            assert(before.order@[i] < n);
        } else if i >= p + 5 {
            assert(before.order@[i - 4] < n);
        }
    }
    assert forall|m: usize| m < n implies (after.live(m) == (before.live(m) && m != arc)) by {
        lemma_split_live(before, after, arc, pt, edge, m);
    }
    assert forall|m: usize| #[trigger] after.live(m) implies after.node_wf(m) by {
        if m >= n {
            lemma_split_new_node(before, after, arc, pt, edge, m);
        } else {
            lemma_split_live(before, after, arc, pt, edge, m);
            lemma_split_old_node(before, after, arc, pt, edge, m);
        }
        after.lemma_fold(m);
    }
    lemma_split_new_node(before, after, arc, pt, edge, (n + 3) as usize);
    if before.nodes@[arc as int].parent is Some {
        let q = before.nodes@[arc as int].parent->0;
        before.lemma_node(q);
        lemma_split_live(before, after, arc, pt, edge, q);
        before.lemma_node(before.root);
    } else {
        lemma_split_new_node(before, after, arc, pt, edge, n);
    }
}

/// Where a place of the order lies after the two neighbouring places `cut`
/// and `cut + 1` have been taken out of it.
pub open spec fn delete_shift(i: int, cut: int) -> int {
    if i > cut {
        i - 2
    } else {
        i
    }
}

/// The order without the places `cut` and `cut + 1`.
pub open spec fn delete_order(order: Seq<usize>, cut: int) -> Seq<usize> {
    order.subrange(0, cut) + order.subrange(cut + 2, order.len() as int)
}

/// The lower of the places of the arc `leaf` and of its parent, which stand
/// next to each other.
pub open spec fn delete_cut(before: BeachLine, leaf: usize) -> int {
    let p = before.place@[leaf as int];
    if before.nodes@[leaf as int].parent == Some(before.order@[p - 1]) {
        p - 1
    } else {
        p
    }
}

/// The breakpoint next to the arc `leaf` that is not its parent.
pub open spec fn delete_other(before: BeachLine, leaf: usize) -> usize {
    let p = before.place@[leaf as int];
    if before.nodes@[leaf as int].parent == Some(before.order@[p - 1]) {
        before.order@[p + 1]
    } else {
        before.order@[p - 1]
    }
}

/// The arena after the arc in slot `leaf` has left the tree: the arc's sibling
/// hangs where the arc's parent hung, and the breakpoint that stays is
/// labelled with the site of the arc that now stands next to it.
pub open spec fn delete_nodes(before: BeachLine, leaf: usize) -> Seq<BeachNode> {
    let nodes = before.nodes@;
    let p = before.place@[leaf as int];
    let parent = nodes[leaf as int].parent->0;
    let grandparent = nodes[parent as int].parent->0;
    let sibling = if nodes[parent as int].right_child == Some(leaf) {
        nodes[parent as int].left_child->0
    } else {
        nodes[parent as int].right_child->0
    };
    let other = delete_other(before, leaf);
    let moved = nodes.update(
        sibling as int,
        BeachNode { parent: Some(grandparent), ..nodes[sibling as int] },
    );
    let hung = if moved[grandparent as int].left_child == Some(parent) {
        moved.update(
            grandparent as int,
            BeachNode { left_child: Some(sibling), ..moved[grandparent as int] },
        )
    } else {
        moved.update(
            grandparent as int,
            BeachNode { right_child: Some(sibling), ..moved[grandparent as int] },
        )
    };
    let bp = hung[other as int].item->Internal_0;
    let relabelled = if other == before.order@[p - 1] {
        BreakPoint { right_site: before.site_of(before.order@[p + 2]), ..bp }
    } else {
        BreakPoint { left_site: before.site_of(before.order@[p - 2]), ..bp }
    };
    hung.update(other as int, BeachNode { item: BeachItem::Internal(relabelled), ..hung[other as int] })
}

/// How each slot and each place of the beachline `after` the arc `leaf` has
/// left it relates to the beachline `before`.
pub open spec fn delete_step(before: BeachLine, after: BeachLine, leaf: usize) -> bool {
    let n = before.nodes@.len();
    let p = before.place@[leaf as int];
    let cut = delete_cut(before, leaf);
    let parent = before.nodes@[leaf as int].parent->0;
    let grandparent = before.nodes@[parent as int].parent->0;
    let sibling = if before.nodes@[parent as int].right_child == Some(leaf) {
        before.nodes@[parent as int].left_child->0
    } else {
        before.nodes@[parent as int].right_child->0
    };
    let other = delete_other(before, leaf);
    &&& after.nodes@.len() == n
    &&& after.place@.len() == n
    &&& after.first@.len() == n
    &&& after.end@.len() == n
    &&& after.order@.len() == before.order@.len() - 2
    &&& after.root == before.root
    &&& forall|x: int|
        0 <= x < n ==> {
            &&& (#[trigger] after.nodes@[x]).parent == if x == sibling {
                Some(grandparent)
            } else {
                before.nodes@[x].parent
            }
            &&& after.nodes@[x].left_child == if x == grandparent && before.nodes@[x].left_child == Some(
                parent,
            ) {
                Some(sibling)
            } else {
                before.nodes@[x].left_child
            }
            &&& after.nodes@[x].right_child == if x == grandparent && before.nodes@[x].right_child
                == Some(parent) {
                Some(sibling)
            } else {
                before.nodes@[x].right_child
            }
            &&& x != other ==> after.nodes@[x].item == before.nodes@[x].item
        }
    &&& after.nodes@[other as int].item == BeachItem::Internal(
        if other == before.order@[p - 1] {
            BreakPoint {
                right_site: before.site_of(before.order@[p + 2]),
                ..before.nodes@[other as int].item->Internal_0
            }
        } else {
            BreakPoint {
                left_site: before.site_of(before.order@[p - 2]),
                ..before.nodes@[other as int].item->Internal_0
            }
        },
    )
    &&& forall|x: int|
        0 <= x < n ==> {
            &&& #[trigger] after.place@[x] == delete_shift(before.place@[x], cut)
            &&& after.first@[x] == delete_shift(before.first@[x], cut)
            &&& after.end@[x] == delete_shift(before.end@[x], cut)
        }
    &&& forall|i: int|
        0 <= i < before.order@.len() - 2 ==> #[trigger] after.order@[i] == if i < cut {
            before.order@[i]
        } else {
            before.order@[i + 2]
        }
}

/// What holds around an arc that has an arc on either side: its parent is
/// the breakpoint before or after it, and hangs below a grandparent.
pub proof fn lemma_inner_arc(b: BeachLine, leaf: usize)
    requires
        b.wf(),
        b.is_arc(leaf),
        2 <= b.place@[leaf as int],
        b.place@[leaf as int] + 2 < b.order@.len(),
    ensures
        ({
            let p = b.place@[leaf as int];
            let node = b.nodes@[leaf as int];
            &&& node.parent is Some
            &&& b.live(node.parent->0)
            &&& b.nodes@[node.parent->0 as int].item is Internal
            &&& b.nodes@[node.parent->0 as int].parent is Some
            &&& b.live(b.nodes@[node.parent->0 as int].parent->0)
            &&& b.nodes@[node.parent->0 as int].left_child is Some
            &&& b.nodes@[node.parent->0 as int].right_child is Some
            &&& b.nodes@[node.parent->0 as int].right_child == Some(leaf) <==> node.parent == Some(
                b.order@[p - 1],
            )
            &&& b.nodes@[node.parent->0 as int].left_child == Some(leaf) <==> node.parent == Some(
                b.order@[p + 1],
            )
            &&& b.nodes@[node.parent->0 as int].left_child == Some(leaf) || b.nodes@[node.parent->0 as int].right_child
                == Some(leaf)
            &&& b.place@[node.parent->0 as int] == delete_cut(b, leaf) + (if delete_cut(b, leaf) == p {
                1int
            } else {
                0int
            })
            &&& b.order@[p - 1] != b.order@[p + 1]
        }),
{
    let p = b.place@[leaf as int];
    b.lemma_node(leaf);
    b.lemma_node(b.root);
    let q = b.nodes@[leaf as int].parent->0;
    b.lemma_node(q);
    b.lemma_at_live(p - 1);
    b.lemma_at_live(p + 1);
    b.lemma_node(b.nodes@[q as int].left_child->0);
    b.lemma_node(b.nodes@[q as int].right_child->0);
}

/// Takes the arc in slot `leaf`, which has an arc on either side, out of
/// the beachline together with its parent. Returns the breakpoint before the
/// arc, the breakpoint after it, its parent (which is one of the two and
/// leaves the tree too) and the other of the two, which stays.
pub fn delete_leaf(leaf: usize, beachline: &mut BeachLine) -> (r: (usize, usize, usize, usize))
    requires
        old(beachline).wf(),
        old(beachline).is_arc(leaf),
        2 <= old(beachline).place@[leaf as int],
        old(beachline).place@[leaf as int] + 2 < old(beachline).order@.len(),
    ensures
        final(beachline).wf(),
        r.0 == old(beachline).order@[old(beachline).place@[leaf as int] - 1],
        r.1 == old(beachline).order@[old(beachline).place@[leaf as int] + 1],
        Some(r.2) == old(beachline).nodes@[leaf as int].parent,
        r.2 == r.0 || r.2 == r.1,
        r.3 == delete_other(*old(beachline), leaf),
        final(beachline).order@ == delete_order(old(beachline).order@, delete_cut(*old(beachline), leaf)),
        final(beachline).nodes@ == delete_nodes(*old(beachline), leaf),
        final(beachline).root == old(beachline).root,
        final(beachline).live(r.3),
        final(beachline).nodes@.len() == old(beachline).nodes@.len(),
        final(beachline).order@.len() == old(beachline).order@.len() - 2,
        forall|m: int|
            0 <= m < old(beachline).nodes@.len() && m != r.3 ==> (#[trigger] final(beachline).nodes@[m]).item
                == old(beachline).nodes@[m].item,
        final(beachline).nodes@[r.3 as int].item is Internal,
        old(beachline).nodes@[r.3 as int].item is Internal,
        final(beachline).nodes@[r.3 as int].item->Internal_0.halfedge == old(beachline).nodes@[r.3 as int].item->Internal_0.halfedge,
        forall|m: usize|
            #![trigger old(beachline).live(m)]
            #![trigger final(beachline).live(m)]
            m < old(beachline).nodes@.len() ==> {
                &&& final(beachline).live(m) == (old(beachline).live(m) && m != leaf && m != r.2)
                &&& final(beachline).live(m) ==> final(beachline).place@[m as int] == delete_shift(
                    old(beachline).place@[m as int],
                    delete_cut(*old(beachline), leaf),
                )
            },
{
    let ghost before = *beachline;
    let ghost p = before.place@[leaf as int];
    let ghost cut = delete_cut(before, leaf);
    proof {
        lemma_inner_arc(before, leaf);
        before.lemma_at_live(p - 1);
        before.lemma_at_live(p + 1);
        before.lemma_at_live(p - 2);
        before.lemma_at_live(p + 2);
    }
    let pred = beachline.predecessor(leaf).unwrap();
    let succ = beachline.successor(leaf).unwrap();
    let parent = beachline.nodes[leaf].parent.unwrap();
    let grandparent = beachline.nodes[parent].parent.unwrap();

    let other = if parent == pred {
        succ
    } else {
        pred
    };

    // the site of the arc that will stand next to `other`
    let new_site = if other == pred {
        let beyond = beachline.successor(succ);
        beachline.get_site(beyond).unwrap()
    } else {
        let beyond = beachline.predecessor(pred);
        beachline.get_site(beyond).unwrap()
    };

    // find sibling
    let sibling = if beachline.nodes[parent].right_child == Some(leaf) {
        beachline.nodes[parent].left_child.unwrap()
    } else {
        beachline.nodes[parent].right_child.unwrap()
    };
    proof {
        before.lemma_node(parent);
        before.lemma_node(grandparent);
        before.lemma_node(sibling);
    }

    // transplant the sibling to replace the parent
    let mut sibling_node = beachline.nodes[sibling];
    sibling_node.parent = Some(grandparent);
    beachline.nodes.set(sibling, sibling_node);
    let mut grandparent_node = beachline.nodes[grandparent];
    if grandparent_node.left_child == Some(parent) {
        grandparent_node.left_child = Some(sibling);
    } else {
        grandparent_node.right_child = Some(sibling);
    }
    beachline.nodes.set(grandparent, grandparent_node);

    // correct the site on 'other'
    let mut other_node = beachline.nodes[other];
    match other_node.item {
        BeachItem::Internal(bp) => {
            if other == pred {
                other_node.item = BeachItem::Internal(
                    BreakPoint { left_site: bp.left_site, right_site: new_site, halfedge: bp.halfedge },
                );
            } else {
                other_node.item = BeachItem::Internal(
                    BreakPoint { left_site: new_site, right_site: bp.right_site, halfedge: bp.halfedge },
                );
            }
        },
        BeachItem::Leaf(_) => {},
    }
    beachline.nodes.set(other, other_node);

    proof {
        let n = before.nodes@.len();
        beachline.order@ = delete_order(before.order@, cut);
        beachline.place@ = Seq::new(n, |m: int| delete_shift(before.place@[m], cut));
        beachline.first@ = Seq::new(n, |m: int| delete_shift(before.first@[m], cut));
        beachline.end@ = Seq::new(n, |m: int| delete_shift(before.end@[m], cut));
        assert(beachline.nodes@ =~= delete_nodes(before, leaf));
        assert(delete_step(before, *beachline, leaf));
        lemma_delete_wf(before, *beachline, leaf);
    }
    (pred, succ, parent, other)
}

/// After an arc has left, the slots hold nodes of the tree exactly where
/// they did before, but for the slots of the arc and of its parent.
proof fn lemma_delete_live(before: BeachLine, after: BeachLine, leaf: usize, m: usize)
    requires
        before.wf(),
        before.is_arc(leaf),
        2 <= before.place@[leaf as int],
        before.place@[leaf as int] + 2 < before.order@.len(),
        delete_step(before, after, leaf),
        m < before.nodes@.len(),
    ensures
        after.live(m) == (before.live(m) && m != leaf && Some(m) != before.nodes@[leaf as int].parent),
{
    let p = before.place@[leaf as int];
    let cut = delete_cut(before, leaf);
    lemma_inner_arc(before, leaf);
    let parent = before.nodes@[leaf as int].parent->0;
    if before.live(m) && m != leaf && m != parent {
        let j = before.place@[m as int];
        assert(before.order@[j] == m);
        assert(before.order@[p] == leaf);
        assert(before.order@[before.place@[parent as int]] == parent);
        assert(j != cut && j != cut + 1);
        assert(after.order@[delete_shift(j, cut)] == m);
    }
    if after.live(m) {
        let j = after.place@[m as int];
        let j0 = before.place@[m as int];
        assert(after.order@[j] == m);
        assert(j == delete_shift(j0, cut));
        if j0 > cut {
            assert(j >= cut);
            assert(after.order@[j] == before.order@[j + 2]);
        } else {
            assert(j < cut);
            assert(after.order@[j] == before.order@[j]);
        }
        before.lemma_at_live(j0);
    }
}

/// After an arc has left, the invariant holds of each node that is still
/// in the tree.
#[verifier::spinoff_prover]
#[verifier::rlimit(60)]
proof fn lemma_delete_node(before: BeachLine, after: BeachLine, leaf: usize, m: usize)
    requires
        before.wf(),
        before.is_arc(leaf),
        2 <= before.place@[leaf as int],
        before.place@[leaf as int] + 2 < before.order@.len(),
        delete_step(before, after, leaf),
        before.live(m),
        m != leaf,
        Some(m) != before.nodes@[leaf as int].parent,
    ensures
        after.node_facts(m),
{
    let p = before.place@[leaf as int];
    let cut = delete_cut(before, leaf);
    lemma_inner_arc(before, leaf);
    let parent = before.nodes@[leaf as int].parent->0;
    let grandparent = before.nodes@[parent as int].parent->0;
    let sibling = if before.nodes@[parent as int].right_child == Some(leaf) {
        before.nodes@[parent as int].left_child->0
    } else {
        before.nodes@[parent as int].right_child->0
    };
    before.lemma_node(leaf);
    before.lemma_node(parent);
    before.lemma_node(grandparent);
    before.lemma_node(sibling);
    before.lemma_node(before.root);
    before.lemma_node(m);
    before.lemma_at_live(p - 1);
    before.lemma_at_live(p + 1);
    before.lemma_at_live(p - 2);
    before.lemma_at_live(p + 2);
    let node = before.nodes@[m as int];
    let j0 = before.place@[m as int];
    assert(before.order@[j0] == m);
    assert(j0 != cut && j0 != cut + 1);
    lemma_delete_live(before, after, leaf, grandparent);
    lemma_delete_live(before, after, leaf, sibling);
    if node.parent is Some {
        let q = node.parent->0;
        before.lemma_node(q);
        lemma_delete_live(before, after, leaf, q);
    }
    if node.item is Internal {
        let l = node.left_child->0;
        let r = node.right_child->0;
        before.lemma_node(l);
        before.lemma_node(r);
        before.lemma_at_live(j0 - 1);
        before.lemma_at_live(j0 + 1);
        lemma_delete_live(before, after, leaf, l);
        lemma_delete_live(before, after, leaf, r);
        let j = delete_shift(j0, cut);
        assert(after.order@[j - 1] == if j - 1 < cut {
            before.order@[j - 1]
        } else {
            before.order@[j + 1]
        });
        assert(after.order@[j + 1] == if j + 1 < cut {
            before.order@[j + 1]
        } else {
            before.order@[j + 3]
        });
    }
}

/// Taking an arc out turns a well-formed beachline into a well-formed one.
proof fn lemma_delete_wf(before: BeachLine, after: BeachLine, leaf: usize)
    requires
        before.wf(),
        before.is_arc(leaf),
        2 <= before.place@[leaf as int],
        before.place@[leaf as int] + 2 < before.order@.len(),
        delete_step(before, after, leaf),
    ensures
        after.wf(),
        forall|m: usize|
            #![trigger before.live(m)]
            #![trigger after.live(m)]
            m < before.nodes@.len() ==> after.live(m) == (before.live(m) && m != leaf && Some(m)
                != before.nodes@[leaf as int].parent),
{
    let p = before.place@[leaf as int];
    let cut = delete_cut(before, leaf);
    let len = before.order@.len() as int;
    lemma_inner_arc(before, leaf);
    assert forall|i: int| 0 <= i < len - 2 implies {
        &&& (#[trigger] after.order@[i]) < after.nodes@.len()
        &&& after.place@[after.order@[i] as int] == i
    } by {
        if i < cut {
            assert(before.order@[i] < before.nodes@.len());
        } else {
            assert(before.order@[i + 2] < before.nodes@.len());
        }
    }
    assert forall|m: usize| m < before.nodes@.len() implies (after.live(m) == (before.live(m) && m
        != leaf && Some(m) != before.nodes@[leaf as int].parent)) by {
        lemma_delete_live(before, after, leaf, m);
    }
    assert forall|m: usize| #[trigger] after.live(m) implies after.node_wf(m) by {
        lemma_delete_live(before, after, leaf, m);
        lemma_delete_node(before, after, leaf, m);
        after.lemma_fold(m);
    }
    before.lemma_node(before.root);
    lemma_delete_live(before, after, leaf, before.root);
}

} // verus!
