//! The sweep, run with a kernel that computes in double precision.

use voronoi::beachline::BeachItem;
use voronoi::beachline::BeachLine;
use voronoi::dcel::make_line_segments;
use voronoi::dcel::make_polygons;
use voronoi::dcel::DCEL;
use voronoi::dcel::NIL;
use voronoi::event::EventQueue;
use voronoi::event::VoronoiEvent;
use voronoi::kernel::Bounds;
use voronoi::kernel::Kernel;
use voronoi::kernel::Limits;
use voronoi::kernel::Segment;
use voronoi::point::Point;
use voronoi::voronoi::handle_circle_event;
use voronoi::voronoi::handle_site_event;
use voronoi::voronoi::lloyd_relaxation;
use voronoi::voronoi::make_circle_event;
use voronoi::voronoi::remove_circle_event;
use voronoi::voronoi::voronoi;

/// The bit pattern of a double, with minus zero as zero and with NaN as the
/// pattern that stands below every number, so that nothing is below it.
fn bits(v: f64) -> u64 {
    if v.is_nan() {
        u64::MAX
    } else {
        (v + 0.0).to_bits()
    }
}

fn pt(x: f64, y: f64) -> Point {
    Point::new(bits(x), bits(y))
}

fn x_of(p: Point) -> f64 {
    f64::from_bits(p.x())
}

fn y_of(p: Point) -> f64 {
    f64::from_bits(p.y())
}

fn cross(a: (f64, f64), b: (f64, f64)) -> f64 {
    a.0 * b.1 - a.1 * b.0
}

struct Doubles;

impl Doubles {
    fn center(&self, a: Point, b: Point, c: Point) -> Option<(f64, f64)> {
        let (x1, y1) = (x_of(a), y_of(a));
        let (x2, y2) = (x_of(b), y_of(b));
        let (x3, y3) = (x_of(c), y_of(c));

        let c1 = x3 * x3 + y3 * y3 - x1 * x1 - y1 * y1;
        let c2 = x3 * x3 + y3 * y3 - x2 * x2 - y2 * y2;
        let a1 = -2. * (x1 - x3);
        let a2 = -2. * (x2 - x3);
        let b1 = -2. * (y1 - y3);
        let b2 = -2. * (y2 - y3);

        let numer = c1 * a2 - c2 * a1;
        let denom = b1 * a2 - b2 * a1;

        if denom == 0.0 {
            return None;
        }
        let y_cen = numer / denom;

        let x_cen = if a2 != 0.0 { (c2 - b2 * y_cen) / a2 } else { (c1 - b1 * y_cen) / a1 };
        Some((x_cen, y_cen))
    }

    fn breakpoint_x(&self, left: Point, right: Point, yl: f64) -> f64 {
        let ax = x_of(left);
        let bx = x_of(right);
        let ay = y_of(left);
        let by = y_of(right);

        let bx_s = bx - ax;
        let ay_s = ay - yl;
        let by_s = by - yl;

        let discrim = ay_s * by_s * ((ay_s - by_s) * (ay_s - by_s) + bx_s * bx_s);
        let numer = ay_s * bx_s - discrim.sqrt();
        let denom = ay_s - by_s;

        if ay_s == 0.0 && by_s == 0.0 {
            // both sites lie on the sweep line: there is no breakpoint
            return f64::NAN;
        }
        let x_bp = if denom != 0.0 { numer / denom } else { bx_s / 2. };
        x_bp + ax
    }
}

impl Kernel for Doubles {
    fn segment_intersection(&self, seg1: Segment, seg2: Segment) -> Option<Point> {
        let a = (x_of(seg1[0]), y_of(seg1[0]));
        let c = (x_of(seg2[0]), y_of(seg2[0]));
        let r = (x_of(seg1[1]) - a.0, y_of(seg1[1]) - a.1);
        let s = (x_of(seg2[1]) - c.0, y_of(seg2[1]) - c.1);

        let denom = cross(r, s);
        if denom == 0.0 {
            return None;
        }
        let numer_a = cross((c.0 - a.0, c.1 - a.1), s);
        let numer_c = cross((c.0 - a.0, c.1 - a.1), r);

        let t = numer_a / denom;
        let u = numer_c / denom;

        if t < 0.0 || t > 1.0 || u < 0.0 || u > 1.0 {
            return None;
        }
        Some(pt(a.0 + r.0 * t, a.1 + r.1 * t))
    }

    fn circle_bottom(&self, a: Point, b: Point, c: Point) -> Option<u64> {
        let (x_cen, y_cen) = self.center(a, b, c)?;
        let (x3, y3) = (x_of(c), y_of(c));
        let r = ((x3 - x_cen) * (x3 - x_cen) + (y3 - y_cen) * (y3 - y_cen)).sqrt();
        Some(bits(y_cen - r))
    }

    fn circle_center(&self, a: Point, b: Point, c: Point) -> Option<Point> {
        let (x_cen, y_cen) = self.center(a, b, c)?;
        Some(pt(x_cen, y_cen))
    }

    fn breakpoints_converge(&self, a: Point, b: Point, c: Point) -> bool {
        let (ax, ay) = (x_of(a), y_of(a));
        let (bx, by) = (x_of(b), y_of(b));
        let (cx, cy) = (x_of(c), y_of(c));
        (ay - by) * (bx - cx) > (by - cy) * (ax - bx)
    }

    fn get_breakpoint_x(&self, left: Point, right: Point, directrix: u64) -> u64 {
        bits(self.breakpoint_x(left, right, f64::from_bits(directrix)))
    }

    fn get_breakpoint_y(&self, left: Point, right: Point, directrix: u64) -> u64 {
        let yl = f64::from_bits(directrix);
        let px = x_of(left);
        let py = y_of(left);
        let bp_x = self.breakpoint_x(left, right, yl);
        let numer = (px - bp_x) * (px - bp_x);
        let denom = 2. * (py - yl);
        bits(numer / denom + (py + yl) / 2.)
    }

    fn makes_left_turn(&self, pt1: Point, pt2: Point, pt3: Point) -> bool {
        let (x1, y1) = (x_of(pt1), y_of(pt1));
        let (x2, y2) = (x_of(pt2), y_of(pt2));
        let (x3, y3) = (x_of(pt3), y_of(pt3));
        (x2 - x1) * (y3 - y1) - (y2 - y1) * (x3 - x1) > 0.
    }

    fn far_directrix(&self, bounds: Bounds) -> (u64, u64) {
        let max_x = f64::from_bits(bounds.0);
        let max_y = f64::from_bits(bounds.1);
        (bits(-2.0 * max_x), bits(-2.0 * max_y))
    }

    fn outer_limits(&self, bounds: Bounds) -> Limits {
        let max_x = f64::from_bits(bounds.0);
        let max_y = f64::from_bits(bounds.1);
        let delta = 50.;
        (bits(0. - delta), bits(max_x + delta), bits(0. - delta), bits(max_y + delta))
    }

    fn inner_limits(&self, bounds: Bounds) -> Limits {
        let max_x = f64::from_bits(bounds.0);
        let max_y = f64::from_bits(bounds.1);
        let delta = 0.1;
        (bits(0. - delta), bits(max_x + delta), bits(0. - delta), bits(max_y + delta))
    }

    fn polygon_centroid(&self, pts: &Vec<Point>) -> Point {
        let mut sum = (0.0, 0.0);
        for p in pts {
            sum = (x_of(*p) + sum.0, y_of(*p) + sum.1);
        }
        let scale = 1.0 / (pts.len() as f64);
        pt(sum.0 * scale, sum.1 * scale)
    }
}

fn bounds(max_x: f64, max_y: f64) -> Bounds {
    (bits(max_x), bits(max_y))
}

fn diagram(sites: &[(f64, f64)]) -> DCEL {
    let pts: Vec<Point> = sites.iter().map(|s| pt(s.0, s.1)).collect();
    voronoi(&Doubles, pts, bounds(800., 800.))
}

/// A few hundred sites, the same at every run.
fn scattered(count: usize) -> Vec<(f64, f64)> {
    let mut state: u64 = 0x2545F4914F6CDD1D;
    let mut next = || {
        state ^= state << 13;
        state ^= state >> 7;
        state ^= state << 17;
        (state >> 11) as f64 / (1u64 << 53) as f64
    };
    let mut sites = Vec::new();
    for _ in 0..count {
        let x = next() * 800.;
        let y = next() * 800.;
        sites.push((x, y));
    }
    sites
}

#[test]
fn the_kernel_of_these_tests_finds_the_centre_of_a_circle() {
    let center = Doubles.circle_center(pt(-1.0, 0.0), pt(0.0, 1.0), pt(1.0, 0.0));
    assert_eq!(center.unwrap(), pt(0.0, 0.0));
}

#[test]
fn the_kernel_of_these_tests_finds_the_far_side_of_a_circle() {
    let bottom = Doubles.circle_bottom(pt(-1.0, 0.0), pt(0.0, 1.0), pt(1.0, 0.0));
    assert_eq!(bottom.unwrap(), bits(-1.0));
}

#[test]
fn the_kernel_of_these_tests_finds_no_circle_through_sites_on_a_line() {
    let bottom = Doubles.circle_bottom(pt(-1.0, 0.0), pt(1.0, 0.0), pt(0.0, 0.0));
    assert_eq!(bottom, None);
}

#[test]
fn the_kernel_of_these_tests_finds_where_segments_cross() {
    let line1 = [pt(-1.0, 0.0), pt(1.0, 0.0)];
    let line2 = [pt(0.0, -1.0), pt(0.0, 1.0)];
    assert_eq!(Doubles.segment_intersection(line1, line2), Some(pt(0.0, 0.0)));
}

#[test]
fn the_kernel_of_these_tests_finds_where_a_segment_ends_on_another() {
    let line1 = [pt(-1.0, 0.0), pt(1.0, 0.0)];
    let line2 = [pt(0.0, 0.0), pt(0.0, 1.0)];
    assert_eq!(Doubles.segment_intersection(line1, line2), Some(pt(0.0, 0.0)));
}

#[test]
fn the_kernel_of_these_tests_finds_no_crossing_of_segments_apart() {
    let line1 = [pt(-1.0, 10.0), pt(1.0, 10.0)];
    let line2 = [pt(0.0, -1.0), pt(0.0, 1.0)];
    assert_eq!(Doubles.segment_intersection(line1, line2), None);
}

#[test]
fn the_kernel_of_these_tests_has_no_breakpoint_between_sites_on_the_sweep_line() {
    let x = Doubles.get_breakpoint_x(pt(10., 1.), pt(20., 1.), bits(1.));
    assert_eq!(x, u64::MAX);
    assert!(f64::from_bits(x).is_nan());
    // at one height above the sweep line the breakpoint is midway
    assert_eq!(Doubles.get_breakpoint_x(pt(10., 1.), pt(20., 1.), bits(0.)), bits(15.));
    // a site on the sweep line has the breakpoint above it
    assert_eq!(Doubles.get_breakpoint_x(pt(10., 2.), pt(20., 1.), bits(1.)), bits(20.));
}

#[test]
fn readme_example() {
    let vor_pts = vec![pt(0.0, 1.0), pt(2.0, 3.0), pt(10.0, 12.0)];
    let vor_diagram = voronoi(&Doubles, vor_pts, bounds(800., 800.));
    let vor_polys = make_polygons(&vor_diagram);
    assert_eq!(vor_polys.len(), 3);
}

#[test]
fn sites_on_a_horizontal_line_are_swept() {
    let vor_pts = vec![pt(10.0, 1.0), pt(20.0, 1.0), pt(30.0, 1.0)];
    let d = voronoi(&Doubles, vor_pts, bounds(800., 800.));
    assert!(d.check_wf() && d.check_links() && d.check_origins() && d.check_boundaries());
    assert!(make_polygons(&d).len() <= 3);
}

#[test]
fn sites_that_coincide_are_swept() {
    let vor_pts = vec![pt(5.0, 5.0), pt(5.0, 5.0), pt(100.0, 200.0), pt(5.0, 5.0)];
    let d = voronoi(&Doubles, vor_pts, bounds(800., 800.));
    assert!(d.check_wf() && d.check_links() && d.check_origins() && d.check_boundaries());
}

#[test]
fn sites_on_a_circle_are_swept() {
    let vor_pts = vec![pt(100., 100.), pt(300., 100.), pt(100., 300.), pt(300., 300.)];
    let d = voronoi(&Doubles, vor_pts, bounds(800., 800.));
    assert!(d.check_wf() && d.check_links() && d.check_origins() && d.check_boundaries());
}

#[test]
fn degenerate_example_vert() {
    let vor_pts = vec![pt(1.0, 10.0), pt(1.0, 20.0), pt(1.0, 30.0), pt(1.0, 40.0)];
    let num_pts = vor_pts.len();
    let vor_diagram = voronoi(&Doubles, vor_pts, bounds(800., 800.));
    let vor_polys = make_polygons(&vor_diagram);
    assert_eq!(vor_polys.len(), num_pts);
}

#[test]
fn no_site_gives_an_empty_edge_list() {
    let d = voronoi(&Doubles, vec![], bounds(800., 800.));
    assert!(d.vertices.is_empty());
    assert!(d.halfedges.is_empty());
    assert!(d.faces.is_empty());
    assert!(make_polygons(&d).is_empty());
}

#[test]
fn single_site_owns_the_rectangle() {
    let d = diagram(&[(5., 5.)]);
    let polys = make_polygons(&d);
    assert_eq!(polys.len(), 1);
    let mut corners: Vec<(f64, f64)> = polys[0].iter().map(|p| (x_of(*p), y_of(*p))).collect();
    corners.sort_by(|a, b| a.partial_cmp(b).unwrap());
    assert_eq!(corners, vec![(0., 0.), (0., 800.), (800., 0.), (800., 800.)]);
}

#[test]
fn two_sites_part_at_the_bisector() {
    let d = diagram(&[(400., 200.), (400., 600.)]);
    let polys = make_polygons(&d);
    assert_eq!(polys.len(), 2);
    for poly in &polys {
        assert_eq!(poly.len(), 4);
        let on_bisector = poly.iter().filter(|p| (y_of(**p) - 400.).abs() < 1e-6).count();
        assert_eq!(on_bisector, 2);
        let below = poly.iter().all(|p| y_of(*p) <= 400. + 1e-6);
        let above = poly.iter().all(|p| y_of(*p) >= 400. - 1e-6);
        assert!(below || above);
    }
}

#[test]
fn twins_are_paired() {
    let d = diagram(&scattered(60));
    for (e, he) in d.halfedges.iter().enumerate() {
        assert_ne!(he.twin, e);
        assert_eq!(d.halfedges[he.twin].twin, e);
    }
}

#[test]
fn next_and_prev_undo_each_other() {
    let d = diagram(&scattered(60));
    for (e, he) in d.halfedges.iter().enumerate() {
        if he.alive {
            assert_eq!(d.halfedges[he.next].prev, e);
            assert_eq!(d.halfedges[he.prev].next, e);
        }
    }
}

#[test]
fn half_edges_end_where_the_next_one_starts() {
    let d = diagram(&scattered(60));
    assert!(d.check_chains());
    for he in &d.halfedges {
        if he.alive {
            assert_eq!(d.halfedges[he.next].origin, d.halfedges[he.twin].origin);
        }
    }
}

#[test]
fn incident_half_edges_start_at_their_vertex() {
    let d = diagram(&scattered(60));
    assert!(!d.vertices.is_empty());
    for (v, vertex) in d.vertices.iter().enumerate() {
        assert_eq!(d.halfedges[vertex.incident_edge].origin, v);
    }
}

#[test]
fn live_half_edges_have_live_neighbours_and_a_live_origin() {
    let d = diagram(&scattered(60));
    assert!(d.vertices.iter().any(|v| !v.alive));
    for he in &d.halfedges {
        if he.alive {
            assert!(d.halfedges[he.next].alive);
            assert!(d.halfedges[he.prev].alive);
            assert!(d.halfedges[he.twin].alive);
            assert!(d.vertices[he.origin].alive);
        }
    }
}

#[test]
fn live_vertices_lie_within_the_margin_of_the_rectangle() {
    let d = diagram(&scattered(60));
    let mut live = 0;
    for vertex in &d.vertices {
        if vertex.alive {
            let (x, y) = (x_of(vertex.coordinates), y_of(vertex.coordinates));
            assert!(x >= -0.1 && x <= 800.1 && y >= -0.1 && y <= 800.1);
            live += 1;
        }
    }
    assert!(live > 0);
}

#[test]
fn face_walks_return() {
    let d = diagram(&scattered(60));
    assert!(!d.faces.is_empty());
    for (f, face) in d.faces.iter().enumerate() {
        assert!(face.alive);
        let mut e = face.outer_component;
        let mut steps = 0;
        loop {
            assert_eq!(d.halfedges[e].face, f);
            e = d.halfedges[e].next;
            steps += 1;
            assert!(steps <= d.halfedges.len());
            if e == face.outer_component {
                break;
            }
        }
    }
    for he in &d.halfedges {
        if he.alive {
            assert_ne!(he.face, NIL);
        }
    }
}

#[test]
fn one_cell_for_each_site() {
    for count in [1usize, 2, 3, 5, 8, 13, 40] {
        let sites = scattered(count);
        let d = diagram(&sites);
        assert_eq!(make_polygons(&d).len(), count);
    }
}

#[test]
fn there_is_one_segment_for_each_pair_of_live_half_edges() {
    let d = diagram(&scattered(40));
    let live = d.halfedges.iter().filter(|he| he.alive).count();
    assert!(live > 0 && live % 2 == 0);
    let segments = make_line_segments(&d);
    assert_eq!(segments.len(), live / 2);
    for (e, he) in d.halfedges.iter().enumerate() {
        if he.alive && he.twin > e {
            let ends = [d.vertices[he.origin].coordinates, d.vertices[d.halfedges[he.twin].origin].coordinates];
            assert!(segments.contains(&ends));
        }
    }
}

#[test]
fn edges_lie_between_their_two_sites() {
    let sites = scattered(25);
    let d = diagram(&sites);
    let inside = |p: Point| x_of(p) > 1. && x_of(p) < 799. && y_of(p) > 1. && y_of(p) < 799.;
    let mut tested = 0;
    for seg in make_line_segments(&d) {
        if !inside(seg[0]) || !inside(seg[1]) {
            continue;
        }
        let mid = ((x_of(seg[0]) + x_of(seg[1])) / 2., (y_of(seg[0]) + y_of(seg[1])) / 2.);
        let mut dists: Vec<f64> =
            sites.iter().map(|s| ((s.0 - mid.0).powi(2) + (s.1 - mid.1).powi(2)).sqrt()).collect();
        dists.sort_by(|a, b| a.partial_cmp(b).unwrap());
        assert!((dists[0] - dists[1]).abs() < 1e-6 * (1. + dists[0]));
        tested += 1;
    }
    assert!(tested > 0);
}

#[test]
fn the_same_sites_give_the_same_edge_list() {
    let sites = scattered(30);
    let a = diagram(&sites);
    let b = diagram(&sites);
    assert_eq!(a.vertices.len(), b.vertices.len());
    assert_eq!(a.halfedges.len(), b.halfedges.len());
    assert_eq!(a.faces.len(), b.faces.len());
    for (x, y) in a.vertices.iter().zip(b.vertices.iter()) {
        assert_eq!(x.coordinates, y.coordinates);
        assert_eq!(x.incident_edge, y.incident_edge);
        assert_eq!(x.alive, y.alive);
    }
    for (x, y) in a.halfedges.iter().zip(b.halfedges.iter()) {
        assert_eq!((x.origin, x.twin, x.next, x.prev, x.face, x.alive), (y.origin, y.twin, y.next, y.prev, y.face, y.alive));
    }
    for (x, y) in a.faces.iter().zip(b.faces.iter()) {
        assert_eq!((x.outer_component, x.alive), (y.outer_component, y.alive));
    }
}

#[test]
fn relaxation_keeps_sites_that_sit_at_their_centroids() {
    let sites = vec![pt(400., 200.), pt(400., 600.)];
    let moved = lloyd_relaxation(&Doubles, sites, bounds(800., 800.));
    let mut moved: Vec<(f64, f64)> = moved.iter().map(|p| (x_of(*p), y_of(*p))).collect();
    moved.sort_by(|a, b| a.partial_cmp(b).unwrap());
    assert_eq!(moved.len(), 2);
    assert!((moved[0].0 - 400.).abs() < 1e-9 && (moved[0].1 - 200.).abs() < 1e-9);
    assert!((moved[1].0 - 400.).abs() < 1e-9 && (moved[1].1 - 600.).abs() < 1e-9);
}

#[test]
fn relaxation_of_no_site_is_empty() {
    let moved = lloyd_relaxation(&Doubles, vec![], bounds(800., 800.));
    assert!(moved.is_empty());
}

#[test]
fn many_sites_are_swept() {
    let sites = scattered(2000);
    let d = diagram(&sites);
    let cells = make_polygons(&d).len();
    assert!(cells >= sites.len() && cells <= sites.len() + sites.len() / 100);
}

/// A kernel that answers by chance.
struct Wild {
    state: std::cell::Cell<u64>,
    odds: [u64; 6],
}

impl Wild {
    fn next(&self) -> u64 {
        let mut s = self.state.get();
        s ^= s << 13;
        s ^= s >> 7;
        s ^= s << 17;
        self.state.set(s);
        s >> 11
    }

    fn coin(&self, which: usize) -> bool {
        self.next() % 100 < self.odds[which]
    }

    fn coord(&self) -> f64 {
        ((self.next() % 40) as f64) * 25. - 100.
    }
}

impl Kernel for Wild {
    fn segment_intersection(&self, _seg1: Segment, _seg2: Segment) -> Option<Point> {
        if self.coin(0) {
            Some(pt(self.coord(), self.coord()))
        } else {
            None
        }
    }
    fn circle_bottom(&self, _a: Point, _b: Point, _c: Point) -> Option<u64> {
        if self.coin(1) {
            Some(bits(self.coord()))
        } else {
            None
        }
    }
    fn circle_center(&self, _a: Point, _b: Point, _c: Point) -> Option<Point> {
        if self.coin(2) {
            Some(pt(self.coord(), self.coord()))
        } else {
            None
        }
    }
    fn breakpoints_converge(&self, _a: Point, _b: Point, _c: Point) -> bool {
        self.coin(3)
    }
    fn get_breakpoint_x(&self, _left: Point, _right: Point, _directrix: u64) -> u64 {
        bits(self.coord())
    }
    fn get_breakpoint_y(&self, _left: Point, _right: Point, _directrix: u64) -> u64 {
        bits(self.coord())
    }
    fn makes_left_turn(&self, _pt1: Point, _pt2: Point, _pt3: Point) -> bool {
        self.coin(4)
    }
    fn far_directrix(&self, bounds: Bounds) -> (u64, u64) {
        bounds
    }
    fn outer_limits(&self, _bounds: Bounds) -> Limits {
        (bits(self.coord()), bits(self.coord()), bits(self.coord()), bits(self.coord()))
    }
    fn inner_limits(&self, _bounds: Bounds) -> Limits {
        if self.coin(5) {
            (bits(self.coord()), bits(self.coord()), bits(self.coord()), bits(self.coord()))
        } else {
            (bits(-1.), bits(801.), bits(-1.), bits(801.))
        }
    }
    fn polygon_centroid(&self, _pts: &Vec<Point>) -> Point {
        pt(0., 0.)
    }
}

#[test]
fn whatever_the_kernel_answers_the_edge_list_is_sound() {
    for seed in 1..=600u64 {
        let kernel = Wild {
            state: std::cell::Cell::new(seed.wrapping_mul(0x9E3779B97F4A7C15) | 1),
            odds: [
                (seed * 7) % 101,
                50 + (seed * 11) % 51,
                50 + (seed * 13) % 51,
                (seed * 17) % 101,
                (seed * 19) % 101,
                (seed * 23) % 101,
            ],
        };
        let count = 1 + (seed % 9) as usize;
        let sites: Vec<Point> = (0..count).map(|_| pt(kernel.coord(), kernel.coord())).collect();
        let d = voronoi(&kernel, sites, bounds(800., 800.));
        assert!(d.check_wf(), "seed {}", seed);
        assert!(d.check_links(), "seed {}", seed);
        assert!(d.check_origins(), "seed {}", seed);
        assert!(d.check_chains(), "seed {}", seed);
        assert!(d.check_boundaries(), "seed {}", seed);
        for (v, vertex) in d.vertices.iter().enumerate() {
            assert_eq!(d.halfedges[vertex.incident_edge].origin, v, "seed {}", seed);
        }
        for he in &d.halfedges {
            if he.alive {
                assert!(d.halfedges[he.next].alive && d.halfedges[he.prev].alive, "seed {}", seed);
                assert!(d.vertices[he.origin].alive, "seed {}", seed);
            }
        }
        for he in &d.halfedges {
            if he.alive {
                assert!(he.face < d.faces.len(), "seed {}", seed);
            }
        }
    }
}

/// The arcs of the beachline, left to right, by their sites.
fn arcs(beach: &BeachLine) -> Vec<Point> {
    let mut sites = Vec::new();
    if beach.is_empty() {
        return sites;
    }
    let mut node = Some(beach.tree_minimum(beach.root));
    while let Some(n) = node {
        if let Some(site) = beach.get_site(Some(n)) {
            sites.push(site);
        }
        node = beach.successor(n);
    }
    sites
}

/// The state of the sweep after the sites (0, 1), (-1, 0) and (1, 0).
fn three_sites_swept() -> (EventQueue, BeachLine, DCEL) {
    let mut queue = EventQueue::new();
    let mut beach = BeachLine::new();
    let mut d = DCEL::new();
    handle_site_event(&Doubles, pt(0., 1.), &mut queue, &mut beach, &mut d);
    handle_site_event(&Doubles, pt(-1., 0.), &mut queue, &mut beach, &mut d);
    handle_site_event(&Doubles, pt(1., 0.), &mut queue, &mut beach, &mut d);
    (queue, beach, d)
}

#[test]
fn the_first_site_becomes_the_first_arc() {
    let mut queue = EventQueue::new();
    let mut beach = BeachLine::new();
    let mut d = DCEL::new();
    handle_site_event(&Doubles, pt(0., 1.), &mut queue, &mut beach, &mut d);
    assert_eq!(arcs(&beach), vec![pt(0., 1.)]);
    assert!(queue.is_empty());
    assert!(d.halfedges.is_empty() && d.vertices.is_empty());
}

#[test]
fn a_site_splits_the_arc_above_it() {
    let mut queue = EventQueue::new();
    let mut beach = BeachLine::new();
    let mut d = DCEL::new();
    handle_site_event(&Doubles, pt(0., 1.), &mut queue, &mut beach, &mut d);
    handle_site_event(&Doubles, pt(-1., 0.), &mut queue, &mut beach, &mut d);
    assert_eq!(arcs(&beach), vec![pt(0., 1.), pt(-1., 0.), pt(0., 1.)]);
    // three arcs have no triple with the new arc at one end
    assert!(queue.is_empty());
    assert_eq!(d.halfedges.len(), 2);
    assert_eq!((d.halfedges[0].twin, d.halfedges[1].twin), (1, 0));
    assert_eq!((d.halfedges[0].origin, d.halfedges[0].next), (NIL, NIL));
    assert!(d.vertices.is_empty());
}

#[test]
fn a_third_site_brings_a_circle_event() {
    let (mut queue, beach, d) = three_sites_swept();
    assert_eq!(arcs(&beach), vec![pt(0., 1.), pt(-1., 0.), pt(0., 1.), pt(1., 0.), pt(0., 1.)]);
    assert_eq!(d.halfedges.len(), 4);
    assert_eq!(queue.next_event_id, 1);
    let event = queue.pop();
    assert!(queue.is_empty());
    match event {
        Some(VoronoiEvent::Circle(center, y, arc)) => {
            assert_eq!(center, pt(0., 0.));
            assert_eq!(y, bits(-1.));
            assert_eq!(beach.get_site(Some(arc)), Some(pt(0., 1.)));
            assert_eq!(beach.get_site(beach.get_left_arc(Some(arc))), Some(pt(-1., 0.)));
            assert_eq!(beach.get_site(beach.get_right_arc(Some(arc))), Some(pt(1., 0.)));
        }
        _ => panic!("a circle event was due"),
    }
}

#[test]
fn a_circle_event_takes_the_arc_and_leaves_a_vertex() {
    let (mut queue, mut beach, mut d) = three_sites_swept();
    let arc = match queue.pop() {
        Some(VoronoiEvent::Circle(_, _, arc)) => arc,
        _ => panic!("a circle event was due"),
    };
    handle_circle_event(&Doubles, arc, pt(0., 0.), &mut queue, &mut beach, &mut d);
    assert_eq!(arcs(&beach), vec![pt(0., 1.), pt(-1., 0.), pt(1., 0.), pt(0., 1.)]);
    assert!(queue.is_empty());
    assert_eq!(d.vertices.len(), 1);
    assert_eq!(d.vertices[0].coordinates, pt(0., 0.));
    assert_eq!(d.halfedges.len(), 6);
    // three half-edges leave the new vertex, and their twins are yet to get an origin
    let leaving = d.halfedges.iter().filter(|he| he.origin == 0).count();
    let unfinished = d.halfedges.iter().filter(|he| he.origin == NIL).count();
    assert_eq!((leaving, unfinished), (3, 3));
    assert_eq!(d.halfedges[d.vertices[0].incident_edge].origin, 0);
    for he in &d.halfedges {
        if he.next != NIL {
            // a half-edge ends where its next one starts
            assert_eq!(d.halfedges[he.twin].origin, d.halfedges[he.next].origin);
        }
    }
    assert!(d.check_wf());
}

#[test]
fn a_circle_event_can_be_entered_and_cancelled() {
    let (mut queue, mut beach, _) = three_sites_swept();
    let arc = match queue.pop() {
        Some(VoronoiEvent::Circle(_, _, arc)) => arc,
        _ => panic!("a circle event was due"),
    };
    remove_circle_event(arc, &mut queue, &mut beach);
    let triple = (pt(-1., 0.), pt(0., 1.), pt(1., 0.));
    make_circle_event(&Doubles, arc, triple, &mut queue, &mut beach);
    assert_eq!(queue.next_event_id, 2);
    assert!(!queue.is_empty());
    remove_circle_event(arc, &mut queue, &mut beach);
    assert!(queue.is_empty());
    // three sites on a line have no circle
    let flat = (pt(-1., 0.), pt(0., 0.), pt(1., 0.));
    make_circle_event(&Doubles, arc, flat, &mut queue, &mut beach);
    assert_eq!(queue.next_event_id, 2);
    assert!(queue.is_empty());
}

#[test]
fn arcs_and_circle_events_name_each_other() {
    let (mut queue, mut beach, _) = three_sites_swept();
    let named: Vec<Option<usize>> = beach
        .nodes
        .iter()
        .map(|node| match node.item {
            BeachItem::Leaf(arc) => arc.site_event,
            BeachItem::Internal(_) => None,
        })
        .collect();
    // one arc names the one pending event, which has the id 0
    assert_eq!(named.iter().filter(|event| event.is_some()).count(), 1);
    let arc = named.iter().position(|event| *event == Some(0)).unwrap();
    match queue.pop() {
        Some(VoronoiEvent::Circle(_, _, removed)) => assert_eq!(removed, arc),
        _ => panic!("a circle event was due"),
    }
    // a cancelled event is named no longer
    make_circle_event_again(arc, &mut queue, &mut beach);
    remove_circle_event(arc, &mut queue, &mut beach);
    assert!(queue.is_empty());
    assert!(beach.nodes.iter().all(|node| match node.item {
        BeachItem::Leaf(arc) => arc.site_event.is_none(),
        BeachItem::Internal(_) => true,
    }));
}

/// Clears what the arc names and enters its circle event once more.
fn make_circle_event_again(arc: usize, queue: &mut EventQueue, beach: &mut BeachLine) {
    beach.set_site_event(arc, None);
    let triple = (pt(-1., 0.), pt(0., 1.), pt(1., 0.));
    make_circle_event(&Doubles, arc, triple, queue, beach);
}
