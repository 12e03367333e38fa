//! The beachline.

use voronoi::beachline::delete_leaf;
use voronoi::beachline::split_arc;
use voronoi::beachline::Arc;
use voronoi::beachline::BeachItem;
use voronoi::beachline::BeachLine;
use voronoi::beachline::BeachNode;
use voronoi::dcel::DCEL;
use voronoi::dcel::NIL;
use voronoi::kernel::Bounds;
use voronoi::kernel::Kernel;
use voronoi::kernel::Limits;
use voronoi::kernel::Segment;
use voronoi::point::Point;

fn pt(x: f64, y: f64) -> Point {
    Point::new(x.to_bits(), y.to_bits())
}

fn x_of(p: Point) -> f64 {
    f64::from_bits(p.x())
}

/// A kernel that puts each breakpoint half-way between its two sites.
struct Midway;

impl Kernel for Midway {
    fn segment_intersection(&self, _seg1: Segment, _seg2: Segment) -> Option<Point> {
        None
    }
    fn circle_bottom(&self, _a: Point, _b: Point, _c: Point) -> Option<u64> {
        None
    }
    fn circle_center(&self, _a: Point, _b: Point, _c: Point) -> Option<Point> {
        None
    }
    fn breakpoints_converge(&self, _a: Point, _b: Point, _c: Point) -> bool {
        false
    }
    fn get_breakpoint_x(&self, left: Point, right: Point, _directrix: u64) -> u64 {
        ((x_of(left) + x_of(right)) / 2.).to_bits()
    }
    fn get_breakpoint_y(&self, _left: Point, _right: Point, directrix: u64) -> u64 {
        directrix
    }
    fn makes_left_turn(&self, _pt1: Point, _pt2: Point, _pt3: Point) -> bool {
        false
    }
    fn far_directrix(&self, bounds: Bounds) -> (u64, u64) {
        bounds
    }
    fn outer_limits(&self, _bounds: Bounds) -> Limits {
        (0, 0, 0, 0)
    }
    fn inner_limits(&self, _bounds: Bounds) -> Limits {
        (0, 0, 0, 0)
    }
    fn polygon_centroid(&self, _pts: &Vec<Point>) -> Point {
        pt(0., 0.)
    }
}

/// The nodes of the beachline, left to right.
fn in_order(beach: &BeachLine) -> Vec<usize> {
    let mut nodes = Vec::new();
    if beach.is_empty() {
        return nodes;
    }
    let mut node = beach.tree_minimum(beach.root);
    loop {
        nodes.push(node);
        match beach.successor(node) {
            Some(next) => node = next,
            None => return nodes,
        }
    }
}

/// The nodes of the beachline, right to left.
fn in_reverse(beach: &BeachLine) -> Vec<usize> {
    let mut nodes = Vec::new();
    if beach.is_empty() {
        return nodes;
    }
    let mut node = beach.tree_maximum(beach.root);
    loop {
        nodes.push(node);
        match beach.predecessor(node) {
            Some(next) => node = next,
            None => return nodes,
        }
    }
}

/// The sites of the arcs, left to right.
fn arcs(beach: &BeachLine) -> Vec<Point> {
    in_order(beach).iter().filter_map(|n| beach.get_site(Some(*n))).collect()
}

/// A beachline with the arcs a, b, a, c, a over the sites a, b, c.
fn three_sites() -> (BeachLine, DCEL, Point, Point, Point) {
    let (a, b, c) = (pt(0., 10.), pt(-5., 5.), pt(5., 4.));
    let mut beach = BeachLine::new();
    let mut dcel = DCEL::new();
    beach.insert_point(a);
    split_arc(0, b, &mut beach, &mut dcel);
    split_arc(5, c, &mut beach, &mut dcel);
    (beach, dcel, a, b, c)
}

#[test]
fn a_leaf_has_no_children() {
    let arc = Arc { site: pt(1., 2.), site_event: Some(3) };
    let node = BeachNode::make_arc(Some(7), BeachItem::Leaf(arc));
    assert_eq!(node.parent, Some(7));
    assert_eq!(node.left_child, None);
    assert_eq!(node.right_child, None);
    match node.item {
        BeachItem::Leaf(a) => {
            assert_eq!(a.site, pt(1., 2.));
            assert_eq!(a.site_event, Some(3));
        }
        BeachItem::Internal(_) => panic!("a leaf was made"),
    }
}

#[test]
fn a_new_beachline_is_empty() {
    let beach = BeachLine::new();
    assert!(beach.is_empty());
    assert_eq!(beach.root, NIL);
    assert!(beach.nodes.is_empty());
}

#[test]
fn the_first_site_is_the_only_arc() {
    let mut beach = BeachLine::new();
    beach.insert_point(pt(3., 4.));
    assert!(!beach.is_empty());
    assert_eq!(beach.root, 0);
    assert_eq!(in_order(&beach), vec![0]);
    assert_eq!(beach.get_site(Some(0)), Some(pt(3., 4.)));
    assert_eq!(beach.successor(0), None);
    assert_eq!(beach.predecessor(0), None);
    assert_eq!(beach.get_left_arc(Some(0)), None);
    assert_eq!(beach.get_right_arc(Some(0)), None);
    assert_eq!(beach.get_centered_triple(0), None);
    assert_eq!(beach.get_arc_above(&Midway, pt(100., 0.)), 0);
}

#[test]
fn a_split_puts_the_new_arc_between_two_halves() {
    let (a, b) = (pt(0., 10.), pt(-5., 5.));
    let mut beach = BeachLine::new();
    let mut dcel = DCEL::new();
    beach.insert_point(a);
    let new_arc = split_arc(0, b, &mut beach, &mut dcel);
    assert_eq!(new_arc, 4);
    assert_eq!(beach.nodes.len(), 6);
    assert_eq!(beach.root, 1);
    assert_eq!(in_order(&beach), vec![3, 1, 4, 2, 5]);
    assert_eq!(in_reverse(&beach), vec![5, 2, 4, 1, 3]);
    assert_eq!(arcs(&beach), vec![a, b, a]);
    assert_eq!(dcel.halfedges.len(), 2);
    assert_eq!(dcel.halfedges[0].twin, 1);
    assert_eq!(dcel.halfedges[1].twin, 0);
    match beach.nodes[1].item {
        BeachItem::Internal(bp) => {
            assert_eq!((bp.left_site, bp.right_site, bp.halfedge), (a, b, 0));
        }
        BeachItem::Leaf(_) => panic!("slot 1 holds a breakpoint"),
    }
    match beach.nodes[2].item {
        BeachItem::Internal(bp) => {
            assert_eq!((bp.left_site, bp.right_site, bp.halfedge), (b, a, 1));
        }
        BeachItem::Leaf(_) => panic!("slot 2 holds a breakpoint"),
    }
    assert_eq!(beach.nodes[1].parent, None);
    assert_eq!(beach.nodes[1].left_child, Some(3));
    assert_eq!(beach.nodes[1].right_child, Some(2));
    assert_eq!(beach.nodes[2].parent, Some(1));
    assert_eq!(beach.nodes[2].left_child, Some(4));
    assert_eq!(beach.nodes[2].right_child, Some(5));
    assert_eq!(beach.get_edge(1), Some(0));
    assert_eq!(beach.get_edge(2), Some(1));
    assert_eq!(beach.get_edge(4), None);
    assert_eq!(beach.get_site(Some(1)), None);
    assert_eq!(beach.get_site(None), None);
}

#[test]
fn a_second_split_keeps_the_order() {
    let (beach, dcel, a, b, c) = three_sites();
    assert_eq!(in_order(&beach), vec![3, 1, 4, 2, 8, 6, 9, 7, 10]);
    assert_eq!(in_reverse(&beach), vec![10, 7, 9, 6, 8, 2, 4, 1, 3]);
    assert_eq!(arcs(&beach), vec![a, b, a, c, a]);
    assert_eq!(dcel.halfedges.len(), 4);
    assert_eq!(beach.nodes[2].right_child, Some(6));
    assert_eq!(beach.nodes[6].parent, Some(2));
    assert_eq!(beach.tree_minimum(2), 4);
    assert_eq!(beach.tree_maximum(2), 10);
    assert_eq!(beach.tree_minimum(6), 8);
    assert_eq!(beach.tree_maximum(1), 10);
}

#[test]
fn neighbouring_arcs_are_two_steps_away() {
    let (beach, _dcel, _a, _b, _c) = three_sites();
    assert_eq!(beach.get_left_arc(Some(8)), Some(4));
    assert_eq!(beach.get_right_arc(Some(8)), Some(9));
    assert_eq!(beach.get_left_arc(Some(3)), None);
    assert_eq!(beach.get_right_arc(Some(10)), None);
    assert_eq!(beach.get_left_arc(None), None);
    assert_eq!(beach.get_right_arc(None), None);
    assert_eq!(beach.get_left_arc(Some(2)), Some(1));
    assert_eq!(beach.get_right_arc(Some(1)), Some(2));
}

#[test]
fn triples_list_three_arcs_left_to_right() {
    let (beach, _dcel, a, b, c) = three_sites();
    assert_eq!(beach.get_centered_triple(8), Some((b, a, c)));
    assert_eq!(beach.get_centered_triple(4), Some((a, b, a)));
    assert_eq!(beach.get_centered_triple(3), None);
    assert_eq!(beach.get_centered_triple(10), None);
    assert_eq!(beach.get_centered_triple(2), None);
    assert_eq!(beach.get_leftward_triple(8), Some((a, b, a)));
    assert_eq!(beach.get_leftward_triple(4), None);
    assert_eq!(beach.get_leftward_triple(10), Some((a, c, a)));
    assert_eq!(beach.get_rightward_triple(8), Some((a, c, a)));
    assert_eq!(beach.get_rightward_triple(3), Some((a, b, a)));
    assert_eq!(beach.get_rightward_triple(9), None);
    assert_eq!(beach.get_rightward_triple(6), None);
}

#[test]
fn the_arc_above_is_found_by_the_breakpoints() {
    let (beach, _dcel, _a, _b, _c) = three_sites();
    // the breakpoints stand at x = -2.5, -2.5, 2.5 and 2.5
    assert_eq!(beach.get_arc_above(&Midway, pt(-100., 0.)), 3);
    assert_eq!(beach.get_arc_above(&Midway, pt(-2.5, 0.)), 8);
    assert_eq!(beach.get_arc_above(&Midway, pt(0., 0.)), 8);
    assert_eq!(beach.get_arc_above(&Midway, pt(2.5, 0.)), 10);
    assert_eq!(beach.get_arc_above(&Midway, pt(100., 0.)), 10);
}

#[test]
fn a_deleted_arc_takes_its_parent_along() {
    let (mut beach, _dcel, a, b, c) = three_sites();
    // the arc in slot 8 is the left child of the breakpoint in slot 6
    let (pred, succ, parent, other) = delete_leaf(8, &mut beach);
    assert_eq!((pred, succ, parent, other), (2, 6, 6, 2));
    assert_eq!(in_order(&beach), vec![3, 1, 4, 2, 9, 7, 10]);
    assert_eq!(in_reverse(&beach), vec![10, 7, 9, 2, 4, 1, 3]);
    assert_eq!(arcs(&beach), vec![a, b, c, a]);
    assert_eq!(beach.nodes[7].parent, Some(2));
    assert_eq!(beach.nodes[2].right_child, Some(7));
    match beach.nodes[2].item {
        BeachItem::Internal(bp) => {
            assert_eq!((bp.left_site, bp.right_site, bp.halfedge), (b, c, 1));
        }
        BeachItem::Leaf(_) => panic!("slot 2 holds a breakpoint"),
    }
    assert_eq!(beach.get_centered_triple(4), Some((a, b, c)));
    assert_eq!(beach.get_centered_triple(9), Some((b, c, a)));
}

#[test]
fn a_deleted_right_child_relabels_the_breakpoint_after_it() {
    let (mut beach, _dcel, a, b, c) = three_sites();
    // the arc in slot 4 is the left child of the breakpoint in slot 2
    let (pred, succ, parent, other) = delete_leaf(4, &mut beach);
    assert_eq!((pred, succ, parent, other), (1, 2, 2, 1));
    assert_eq!(in_order(&beach), vec![3, 1, 8, 6, 9, 7, 10]);
    assert_eq!(arcs(&beach), vec![a, a, c, a]);
    match beach.nodes[1].item {
        BeachItem::Internal(bp) => {
            assert_eq!((bp.left_site, bp.right_site, bp.halfedge), (a, a, 0));
        }
        BeachItem::Leaf(_) => panic!("slot 1 holds a breakpoint"),
    }
    let (pred, succ, parent, other) = delete_leaf(9, &mut beach);
    assert_eq!((pred, succ, parent, other), (6, 7, 7, 6));
    assert_eq!(in_order(&beach), vec![3, 1, 8, 6, 10]);
    match beach.nodes[6].item {
        BeachItem::Internal(bp) => {
            assert_eq!((bp.left_site, bp.right_site, bp.halfedge), (a, a, 2));
        }
        BeachItem::Leaf(_) => panic!("slot 6 holds a breakpoint"),
    }
    let _ = (b, c);
}

#[test]
fn the_pending_event_of_an_arc_can_be_set_and_cleared() {
    let (mut beach, _dcel, a, _b, _c) = three_sites();
    beach.set_site_event(8, Some(17));
    match beach.nodes[8].item {
        BeachItem::Leaf(arc) => {
            assert_eq!(arc.site, a);
            assert_eq!(arc.site_event, Some(17));
        }
        BeachItem::Internal(_) => panic!("slot 8 holds an arc"),
    }
    beach.set_site_event(8, None);
    match beach.nodes[8].item {
        BeachItem::Leaf(arc) => assert_eq!(arc.site_event, None),
        BeachItem::Internal(_) => panic!("slot 8 holds an arc"),
    }
    assert_eq!(in_order(&beach), vec![3, 1, 4, 2, 8, 6, 9, 7, 10]);
}

#[test]
fn a_breakpoint_can_be_given_another_edge() {
    let (mut beach, _dcel, b_left, b_right, _c) = three_sites();
    beach.set_edge(1, 3);
    assert_eq!(beach.get_edge(1), Some(3));
    match beach.nodes[1].item {
        BeachItem::Internal(bp) => assert_eq!((bp.left_site, bp.right_site), (b_left, b_right)),
        BeachItem::Leaf(_) => panic!("slot 1 holds a breakpoint"),
    }
}
