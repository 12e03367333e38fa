//! Closing an edge list off against the bounding rectangle.

use voronoi::beachline::split_arc;
use voronoi::beachline::BeachLine;
use voronoi::dcel::HalfEdge;
use voronoi::dcel::Vertex;
use voronoi::dcel::DCEL;
use voronoi::dcel::NIL;
use voronoi::kernel::Bounds;
use voronoi::kernel::Kernel;
use voronoi::kernel::Limits;
use voronoi::kernel::Segment;
use voronoi::point::Point;
use voronoi::voronoi::add_bounding_box;
use voronoi::voronoi::bounding_lines;
use voronoi::voronoi::extend_edges;
use voronoi::voronoi::outside_bb;

fn pt(x: f64, y: f64) -> Point {
    Point::new(x.to_bits(), y.to_bits())
}

/// A kernel whose answers let the bounding lines cross nothing, and for
/// which the points with a negative x coordinate lie outside.
struct Apart;

impl Kernel for Apart {
    fn segment_intersection(&self, _seg1: Segment, _seg2: Segment) -> Option<Point> {
        None
    }
    fn circle_bottom(&self, _a: Point, _b: Point, _c: Point) -> Option<u64> {
        None
    }
    fn circle_center(&self, _a: Point, _b: Point, _c: Point) -> Option<Point> {
        None
    }
    fn breakpoints_converge(&self, _a: Point, _b: Point, _c: Point) -> bool {
        false
    }
    fn get_breakpoint_x(&self, left: Point, _right: Point, _directrix: u64) -> u64 {
        left.x()
    }
    fn get_breakpoint_y(&self, _left: Point, right: Point, _directrix: u64) -> u64 {
        right.y()
    }
    fn makes_left_turn(&self, _pt1: Point, _pt2: Point, _pt3: Point) -> bool {
        false
    }
    fn far_directrix(&self, bounds: Bounds) -> (u64, u64) {
        bounds
    }
    fn outer_limits(&self, bounds: Bounds) -> Limits {
        (0, bounds.0, 0, bounds.1)
    }
    fn inner_limits(&self, _bounds: Bounds) -> Limits {
        (0, f64::INFINITY.to_bits(), f64::NEG_INFINITY.to_bits(), f64::INFINITY.to_bits())
    }
    fn polygon_centroid(&self, _pts: &Vec<Point>) -> Point {
        pt(0., 0.)
    }
}

fn one_arc() -> BeachLine {
    let mut beach = BeachLine::new();
    beach.insert_point(pt(4., 4.));
    beach
}

fn edge(origin: usize, twin: usize, next: usize) -> HalfEdge {
    HalfEdge { origin, twin, next, face: NIL, prev: NIL, alive: true }
}

fn vertex(x: f64, y: f64, incident_edge: usize) -> Vertex {
    Vertex { coordinates: pt(x, y), incident_edge, alive: true }
}

/// A path over three vertices, of which the first two have the given x
/// coordinates: the half-edges 0 and 2 lead there, their twins back.
fn path(x0: f64, x1: f64) -> DCEL {
    DCEL {
        vertices: vec![vertex(x0, 1., 0), vertex(x1, 2., 2), vertex(3., 3., 3)],
        halfedges: vec![edge(0, 1, 2), edge(1, 0, 0), edge(1, 3, 3), edge(2, 2, 1)],
        faces: vec![],
    }
}

fn bounds() -> Bounds {
    (9f64.to_bits(), 9f64.to_bits())
}

#[test]
fn an_edge_list_without_half_edges_gets_the_four_lines() {
    let mut d = DCEL::new();
    add_bounding_box(&Apart, bounds(), &one_arc(), &mut d);
    assert_eq!(d.halfedges.len(), 8);
    assert_eq!(d.vertices.len(), 8);
    assert!(d.faces.is_empty());
    assert!(d.check_wf() && d.check_links() && d.check_origins() && d.check_chains());
    assert!(d.halfedges.iter().all(|he| he.alive));
    let starts: Vec<Point> = d.vertices.iter().map(|v| v.coordinates).collect();
    assert_eq!(
        starts,
        vec![pt(9., 0.), pt(0., 0.), pt(9., 0.), pt(9., 9.), pt(0., 0.), pt(0., 9.), pt(9., 9.), pt(0., 9.)]
    );
}

#[test]
fn a_path_inside_the_rectangle_stays() {
    let mut d = path(1., 2.);
    add_bounding_box(&Apart, bounds(), &one_arc(), &mut d);
    assert!(d.check_wf() && d.check_links() && d.check_origins() && d.check_chains());
    assert!(d.halfedges.iter().all(|he| he.alive));
    assert_eq!(d.halfedges[0].prev, 1);
    assert_eq!(d.halfedges[1].prev, 3);
}

#[test]
fn a_vertex_outside_the_rectangle_goes_with_its_half_edges() {
    let mut d = path(-1., 2.);
    add_bounding_box(&Apart, bounds(), &one_arc(), &mut d);
    assert!(d.check_wf() && d.check_links() && d.check_origins() && d.check_chains());
    assert!(!d.vertices[0].alive);
    assert!(d.vertices[1].alive && d.vertices[2].alive);
    assert!(!d.halfedges[0].alive && !d.halfedges[1].alive);
    assert!(d.halfedges[2].alive && d.halfedges[3].alive);
    assert_eq!((d.halfedges[2].next, d.halfedges[3].next), (3, 2));
}

#[test]
fn two_vertices_outside_the_rectangle_take_the_whole_path() {
    let mut d = path(-1., -2.);
    add_bounding_box(&Apart, bounds(), &one_arc(), &mut d);
    assert!(d.check_wf() && d.check_links() && d.check_origins() && d.check_chains());
    assert!(!d.vertices[0].alive && !d.vertices[1].alive);
    assert!(d.vertices[2].alive);
    assert!(d.halfedges[..4].iter().all(|he| !he.alive));
    assert!(d.halfedges[4..].iter().all(|he| he.alive));
    assert_eq!(d.halfedges.len(), 12);
}

#[test]
fn unfinished_half_edges_are_led_to_far_vertices() {
    let (a, b) = (pt(4., 8.), pt(2., 6.));
    let mut beach = BeachLine::new();
    let mut d = DCEL::new();
    beach.insert_point(a);
    split_arc(0, b, &mut beach, &mut d);
    extend_edges(&Apart, &beach, &mut d, bounds());
    assert_eq!(d.vertices.len(), 2);
    // the kernel gives the x of the left site and the y of the right site
    assert_eq!((d.vertices[0].coordinates, d.vertices[0].incident_edge), (pt(4., 6.), 0));
    assert_eq!((d.vertices[1].coordinates, d.vertices[1].incident_edge), (pt(2., 8.), 1));
    assert_eq!((d.halfedges[0].origin, d.halfedges[0].next), (0, 1));
    assert_eq!((d.halfedges[1].origin, d.halfedges[1].next), (1, 0));
    assert!(d.check_wf() && d.check_origins());
}

#[test]
fn a_point_lies_outside_beyond_any_of_the_four_limits() {
    let limits: Limits = ((-0.1f64).to_bits(), 800.1f64.to_bits(), (-0.1f64).to_bits(), 600.1f64.to_bits());
    assert!(!outside_bb(pt(0., 0.), limits));
    assert!(!outside_bb(pt(800., 600.), limits));
    assert!(!outside_bb(pt(-0.1, 600.1), limits));
    assert!(!outside_bb(pt(800.1, -0.1), limits));
    assert!(outside_bb(pt(-0.2, 300.), limits));
    assert!(outside_bb(pt(800.2, 300.), limits));
    assert!(outside_bb(pt(400., -0.2), limits));
    assert!(outside_bb(pt(400., 600.2), limits));
    assert!(outside_bb(pt(f64::INFINITY, 300.), limits));
    assert!(outside_bb(pt(400., f64::NEG_INFINITY), limits));
}

#[test]
fn the_four_lines_run_along_the_sides_of_the_rectangle() {
    let bounds: Bounds = (800f64.to_bits(), 600f64.to_bits());
    let reach: Limits = ((-50f64).to_bits(), 850f64.to_bits(), (-50f64).to_bits(), 650f64.to_bits());
    assert_eq!(
        bounding_lines(bounds, reach),
        [
            [pt(-50., 0.), pt(850., 0.)],
            [pt(800., -50.), pt(800., 650.)],
            [pt(0., -50.), pt(0., 650.)],
            [pt(-50., 600.), pt(850., 600.)],
        ]
    );
}
