//! The doubly connected edge list.

use voronoi::dcel::add_faces;
use voronoi::dcel::make_line_segments;
use voronoi::dcel::make_polygons;
use voronoi::dcel::sort_crossings;
use voronoi::dcel::Face;
use voronoi::dcel::HalfEdge;
use voronoi::dcel::Vertex;
use voronoi::dcel::DCEL;
use voronoi::dcel::NIL;
use voronoi::point::Point;

fn pt(x: f64, y: f64) -> Point {
    Point::new(x.to_bits(), y.to_bits())
}

fn edge(origin: usize, twin: usize, next: usize) -> HalfEdge {
    HalfEdge { origin, twin, next, face: NIL, prev: NIL, alive: true }
}

fn vertex(x: f64, y: f64, incident_edge: usize) -> Vertex {
    Vertex { coordinates: pt(x, y), incident_edge, alive: true }
}

/// A triangle: the half-edges 0, 2, 4 run round its inside and their twins
/// 1, 3, 5 round its outside.
fn triangle() -> DCEL {
    DCEL {
        vertices: vec![vertex(0., 0., 0), vertex(4., 0., 2), vertex(0., 3., 4)],
        halfedges: vec![edge(0, 1, 2), edge(1, 0, 5), edge(1, 3, 4), edge(2, 2, 1), edge(2, 5, 0), edge(0, 4, 3)],
        faces: vec![],
    }
}

fn links(d: &DCEL) -> Vec<(usize, usize, bool)> {
    d.halfedges.iter().map(|he| (he.next, he.prev, he.alive)).collect()
}

#[test]
fn a_new_half_edge_has_no_links() {
    let he = HalfEdge::new();
    assert_eq!((he.origin, he.twin, he.next, he.face, he.prev), (NIL, NIL, NIL, NIL, NIL));
    assert!(he.alive);
    assert_eq!(NIL, usize::MAX);
}

#[test]
fn a_new_face_names_its_half_edge() {
    let face = Face::new(7);
    assert_eq!(face.outer_component, 7);
    assert!(face.alive);
}

#[test]
fn a_new_edge_list_is_empty() {
    let d = DCEL::new();
    assert!(d.vertices.is_empty());
    assert!(d.halfedges.is_empty());
    assert!(d.faces.is_empty());
    assert!(d.check_wf());
    assert!(d.check_links());
    assert!(d.check_origins());
    assert!(d.check_boundaries());
}

#[test]
fn twins_are_added_in_pairs() {
    let mut d = DCEL::new();
    assert_eq!(d.add_twins(), (0, 1));
    assert_eq!(d.add_twins(), (2, 3));
    assert_eq!(d.halfedges.len(), 4);
    for (e, twin) in [(0, 1), (1, 0), (2, 3), (3, 2)] {
        let he = d.halfedges[e];
        assert_eq!(he.twin, twin);
        assert_eq!((he.origin, he.next, he.prev, he.face), (NIL, NIL, NIL, NIL));
        assert!(he.alive);
    }
    assert!(d.check_wf());
    assert!(!d.check_origins());
}

#[test]
fn the_origin_of_a_half_edge_is_a_point() {
    let d = triangle();
    assert_eq!(d.get_origin(0), pt(0., 0.));
    assert_eq!(d.get_origin(1), pt(4., 0.));
    assert_eq!(d.get_origin(4), pt(0., 3.));
}

#[test]
fn the_checks_tell_a_broken_edge_list() {
    let mut d = triangle();
    assert!(d.check_wf());
    assert!(d.check_origins());
    assert!(!d.check_links());
    d.halfedges[0].twin = 0;
    assert!(!d.check_wf());
    let mut d = triangle();
    d.halfedges[3].twin = 1;
    assert!(!d.check_wf());
    let mut d = triangle();
    d.halfedges[2].next = 6;
    assert!(!d.check_wf());
    let mut d = triangle();
    d.vertices[1].incident_edge = NIL;
    assert!(!d.check_wf());
    let mut d = triangle();
    d.halfedges[5].origin = NIL;
    assert!(d.check_wf());
    assert!(!d.check_origins());
    let mut d = triangle();
    d.faces.push(Face::new(6));
    assert!(!d.check_wf());
}

#[test]
fn half_edges_are_chained_end_to_start() {
    let mut d = triangle();
    assert!(d.check_chains());
    // half-edge 0 ends at vertex 1, and its next one now starts at vertex 0
    d.halfedges[2].origin = 0;
    assert!(!d.check_chains());
    let mut d = triangle();
    d.halfedges[0].next = NIL;
    assert!(!d.check_chains());
    // a dead half-edge is not looked at
    d.halfedges[0].alive = false;
    assert!(d.check_chains());
}

#[test]
fn every_half_edge_learns_what_precedes_it() {
    let mut d = triangle();
    d.set_prev();
    assert_eq!(
        links(&d),
        vec![(2, 4, true), (5, 3, true), (4, 0, true), (1, 5, true), (0, 2, true), (3, 1, true)]
    );
    assert!(d.check_links());
    assert!(d.check_wf());
}

#[test]
fn the_last_of_two_rivals_precedes() {
    let mut d = triangle();
    d.halfedges[4].next = 2;
    d.set_prev();
    assert_eq!(d.halfedges[2].prev, 4);
    assert_eq!(d.halfedges[0].prev, NIL);
    assert!(!d.check_links());
}

#[test]
fn the_walk_along_next_is_measured() {
    let mut d = triangle();
    assert_eq!(d.cycle_length(0), Some(3));
    assert_eq!(d.cycle_length(3), Some(3));
    d.halfedges[4].next = 2;
    assert_eq!(d.cycle_length(2), Some(2));
    assert_eq!(d.cycle_length(0), None);
    d.halfedges[4].next = NIL;
    assert_eq!(d.cycle_length(0), None);
}

#[test]
fn the_half_edges_round_a_vertex_are_listed() {
    let d = triangle();
    assert_eq!(d.get_edges_around_vertex(0), Some(vec![0, 5]));
    assert_eq!(d.get_edges_around_vertex(1), Some(vec![2, 1]));
    assert_eq!(d.get_edges_around_vertex(2), Some(vec![4, 3]));
    let mut d = triangle();
    d.halfedges[4].next = 2;
    assert_eq!(d.get_edges_around_vertex(0), None);
}

#[test]
fn a_removed_half_edge_takes_its_twin_along() {
    let mut d = triangle();
    d.set_prev();
    d.remove_edge(0);
    assert_eq!(
        links(&d),
        vec![(2, 4, false), (5, 3, false), (4, 3, true), (2, 5, true), (5, 2, true), (3, 4, true)]
    );
    assert!(d.check_links());
    assert!(d.check_wf());
}

#[test]
fn a_removed_vertex_takes_its_half_edges_along() {
    let mut d = triangle();
    d.set_prev();
    d.remove_vertex(0);
    assert!(!d.vertices[0].alive);
    assert!(d.vertices[1].alive && d.vertices[2].alive);
    let alive: Vec<bool> = d.halfedges.iter().map(|he| he.alive).collect();
    assert_eq!(alive, vec![false, false, true, true, false, false]);
    assert_eq!((d.halfedges[2].next, d.halfedges[2].prev), (3, 3));
    assert_eq!((d.halfedges[3].next, d.halfedges[3].prev), (2, 2));
    assert!(d.check_links());
    assert!(d.check_wf());
}

#[test]
fn a_walk_round_a_vertex_that_leads_away_is_found() {
    let mut d = triangle();
    d.set_prev();
    d.remove_edge(0);
    // the incident edge of vertex 0 is dead, and the walk from it leads away
    assert_eq!(d.get_edges_around_vertex(0), None);
    assert_eq!(d.get_edges_around_vertex(1), Some(vec![2]));
}

#[test]
fn walks_that_do_not_close_are_found() {
    let mut d = triangle();
    assert!(d.check_walks());
    // the walk from half-edge 0 now runs into the round of 2 and 4
    d.halfedges[4].next = 2;
    assert!(!d.check_walks());
    let mut d = triangle();
    d.halfedges[4].next = NIL;
    assert!(!d.check_walks());
    // dead half-edges are not walked from
    d.halfedges[0].alive = false;
    d.halfedges[2].alive = false;
    d.halfedges[4].alive = false;
    assert!(d.check_walks());
}

#[test]
fn faces_are_made_of_the_walks_along_next() {
    let mut d = triangle();
    d.set_prev();
    add_faces(&mut d);
    assert_eq!(d.faces.len(), 2);
    assert_eq!((d.faces[0].outer_component, d.faces[0].alive), (0, true));
    assert_eq!((d.faces[1].outer_component, d.faces[1].alive), (1, true));
    let faces: Vec<usize> = d.halfedges.iter().map(|he| he.face).collect();
    assert_eq!(faces, vec![0, 1, 0, 1, 0, 1]);
    assert!(d.check_wf());
    assert!(d.check_boundaries());
}

#[test]
fn dead_half_edges_open_no_face() {
    let mut d = triangle();
    d.set_prev();
    d.remove_vertex(0);
    add_faces(&mut d);
    assert_eq!(d.faces.len(), 1);
    assert_eq!(d.faces[0].outer_component, 2);
    let faces: Vec<usize> = d.halfedges.iter().map(|he| he.face).collect();
    assert_eq!(faces, vec![NIL, NIL, 0, 0, NIL, NIL]);
}

#[test]
fn each_pair_of_half_edges_gives_one_segment() {
    let d = triangle();
    let segments = make_line_segments(&d);
    assert_eq!(
        segments,
        vec![[pt(0., 0.), pt(4., 0.)], [pt(4., 0.), pt(0., 3.)], [pt(0., 3.), pt(0., 0.)]]
    );
}

#[test]
fn segments_leave_out_what_is_dead_or_unfinished() {
    let mut d = triangle();
    d.halfedges[0].alive = false;
    d.halfedges[2].next = NIL;
    d.halfedges[5].origin = NIL;
    let segments = make_line_segments(&d);
    // half-edge 1 stands for its pair, and is followed by one without an origin;
    // half-edge 2 has no next one; half-edge 4 stands for the last pair
    assert_eq!(segments, vec![[pt(0., 3.), pt(0., 0.)]]);
}

#[test]
fn a_dead_twin_leaves_the_segment_to_the_other_half_edge() {
    let mut d = triangle();
    d.halfedges[2].alive = false;
    let segments = make_line_segments(&d);
    assert_eq!(
        segments,
        vec![[pt(0., 0.), pt(4., 0.)], [pt(0., 3.), pt(4., 0.)], [pt(0., 3.), pt(0., 0.)]]
    );
}

#[test]
fn polygons_leave_out_the_last_of_the_largest() {
    let mut d = triangle();
    add_faces(&mut d);
    let polygons = make_polygons(&d);
    assert_eq!(polygons, vec![vec![pt(0., 0.), pt(4., 0.), pt(0., 3.)]]);
}

#[test]
fn polygons_are_sorted_by_their_corners() {
    // a triangle inside and a two-cornered boundary beside it
    let mut d = triangle();
    d.vertices.push(vertex(9., 9., 6));
    d.vertices.push(vertex(8., 8., 7));
    d.halfedges.push(edge(3, 7, 7));
    d.halfedges.push(edge(4, 6, 6));
    add_faces(&mut d);
    assert_eq!(d.faces.len(), 3);
    let polygons = make_polygons(&d);
    assert_eq!(polygons, vec![vec![pt(9., 9.), pt(8., 8.)], vec![pt(0., 0.), pt(4., 0.), pt(0., 3.)]]);
}

#[test]
fn polygons_of_no_face_are_none() {
    let d = triangle();
    assert!(make_polygons(&d).is_empty());
}

#[test]
fn crossings_are_sorted_in_sweep_order() {
    let list = vec![(pt(0., 5.), 0), (pt(0., 1.), 1), (pt(3., 1.), 2), (pt(0., 9.), 3), (pt(0., 5.), 4)];
    let sorted = sort_crossings(list);
    assert_eq!(
        sorted,
        vec![(pt(3., 1.), 2), (pt(0., 1.), 1), (pt(0., 5.), 0), (pt(0., 5.), 4), (pt(0., 9.), 3)]
    );
    assert!(sort_crossings(vec![]).is_empty());
}

#[test]
fn a_line_across_nothing_is_a_pair_of_half_edges() {
    let mut d = DCEL::new();
    d.insert_line(pt(0., 0.), pt(0., 5.), &vec![]);
    assert_eq!(d.vertices.len(), 2);
    assert_eq!((d.vertices[0].coordinates, d.vertices[0].incident_edge), (pt(0., 0.), 0));
    assert_eq!((d.vertices[1].coordinates, d.vertices[1].incident_edge), (pt(0., 5.), 1));
    assert_eq!(d.halfedges.len(), 2);
    assert_eq!((d.halfedges[0].origin, d.halfedges[0].twin, d.halfedges[0].next), (0, 1, 1));
    assert_eq!((d.halfedges[1].origin, d.halfedges[1].twin, d.halfedges[1].next), (1, 0, 0));
    d.set_prev();
    assert!(d.check_wf() && d.check_links() && d.check_origins());
}

#[test]
fn a_line_parts_the_half_edges_that_it_crosses() {
    let mut d = DCEL::new();
    // a first line from (0, -5) to (0, 5), then a second one across it
    d.insert_line(pt(0., -5.), pt(0., 5.), &vec![]);
    d.insert_line(pt(-5., 0.), pt(5., 0.), &vec![(pt(0., 0.), 0)]);
    assert_eq!(d.vertices.len(), 5);
    assert_eq!(d.vertices[2].coordinates, pt(-5., 0.));
    assert_eq!(d.vertices[3].coordinates, pt(0., 0.));
    assert_eq!(d.vertices[4].coordinates, pt(5., 0.));
    assert_eq!(d.halfedges.len(), 8);
    d.set_prev();
    assert!(d.check_wf() && d.check_links() && d.check_origins());
    for (e, he) in d.halfedges.iter().enumerate() {
        // every half-edge ends where the next one starts
        assert_eq!(d.halfedges[he.twin].origin, d.halfedges[he.next].origin, "after half-edge {}", e);
    }
    // four half-edges leave the crossing
    let leaving = d.halfedges.iter().filter(|he| he.origin == 3).count();
    assert_eq!(leaving, 4);
    add_faces(&mut d);
    assert_eq!(d.faces.len(), 1);
    assert_eq!(d.cycle_length(0), Some(8));
}

#[test]
fn a_vertex_joins_three_boundaries() {
    let mut d = DCEL::new();
    d.add_twins();
    d.add_twins();
    let pair = d.join_at(pt(1., 2.), 0, 2, 2, 0);
    assert_eq!(pair, (4, 5));
    assert_eq!(d.vertices.len(), 1);
    assert_eq!((d.vertices[0].coordinates, d.vertices[0].incident_edge), (pt(1., 2.), 4));
    assert_eq!(d.halfedges[0].origin, 0);
    assert_eq!(d.halfedges[2].origin, 0);
    assert_eq!(d.halfedges[4].origin, 0);
    assert_eq!(d.halfedges[5].origin, NIL);
    assert_eq!(d.halfedges[1].next, 2);
    assert_eq!(d.halfedges[3].next, 4);
    assert_eq!(d.halfedges[5].next, 0);
    assert_eq!((d.halfedges[4].twin, d.halfedges[5].twin), (5, 4));
    assert!(d.check_wf());
}
