//! The queue of events.

use voronoi::dcel::NIL;
use voronoi::event::left_child;
use voronoi::event::parent;
use voronoi::event::right_child;
use voronoi::event::EventQueue;
use voronoi::event::VoronoiEvent;
use voronoi::point::Point;

fn pt(x: f64, y: f64) -> Point {
    Point::new(x.to_bits(), y.to_bits())
}

fn site(x: f64, y: f64) -> VoronoiEvent {
    VoronoiEvent::Site(pt(x, y))
}

fn circle(x: f64, y: f64, bottom: f64, arc: usize) -> VoronoiEvent {
    VoronoiEvent::Circle(pt(x, y), bottom.to_bits(), arc)
}

fn height(event: &VoronoiEvent) -> f64 {
    f64::from_bits(event.get_y())
}

fn drain(queue: &mut EventQueue) -> Vec<VoronoiEvent> {
    let mut events = Vec::new();
    while let Some(event) = queue.pop() {
        events.push(event);
    }
    events
}

#[test]
fn the_root_has_no_parent() {
    assert_eq!(parent(0), NIL);
    assert_eq!(parent(NIL), NIL);
}

#[test]
fn a_node_stands_below_its_parent() {
    assert_eq!(parent(1), 0);
    assert_eq!(parent(2), 0);
    assert_eq!(parent(3), 1);
    assert_eq!(parent(4), 1);
    assert_eq!(parent(5), 2);
    assert_eq!(parent(6), 2);
    assert_eq!(right_child(0), 1);
    assert_eq!(left_child(0), 2);
    assert_eq!(right_child(3), 7);
    assert_eq!(left_child(3), 8);
    for node in 0..100 {
        assert_eq!(parent(right_child(node)), node);
        assert_eq!(parent(left_child(node)), node);
    }
}

#[test]
fn a_site_event_happens_at_the_height_of_the_site() {
    assert_eq!(height(&site(3., 7.)), 7.);
    assert_eq!(site(3., 7.).point(), pt(3., 7.));
}

#[test]
fn a_circle_event_happens_at_the_far_side_of_the_circle() {
    let event = circle(3., 7., 2., 11);
    assert_eq!(height(&event), 2.);
    assert_eq!(event.point(), pt(3., 2.));
}

#[test]
fn a_new_queue_is_empty() {
    let mut queue = EventQueue::new();
    assert!(queue.is_empty());
    assert!(queue.pop().is_none());
    assert_eq!(queue.next_event_id, 0);
}

#[test]
fn ids_count_upwards() {
    let mut queue = EventQueue::new();
    assert_eq!(queue.push(site(0., 1.)), 0);
    assert_eq!(queue.push(site(0., 5.)), 1);
    assert_eq!(queue.push(circle(0., 0., 3., 4)), 2);
    assert_eq!(queue.next_event_id, 3);
    queue.pop();
    assert_eq!(queue.push(site(0., 2.)), 3);
    assert!(!queue.is_empty());
}

#[test]
fn events_come_out_highest_first() {
    let mut queue = EventQueue::new();
    let heights = [3., 9., 1., 7., 5., 8., 2., 6., 4., 0.];
    for (i, y) in heights.iter().enumerate() {
        if i % 2 == 0 {
            queue.push(site(i as f64, *y));
        } else {
            queue.push(circle(i as f64, 100., *y, i));
        }
    }
    let out: Vec<f64> = drain(&mut queue).iter().map(height).collect();
    assert_eq!(out, vec![9., 8., 7., 6., 5., 4., 3., 2., 1., 0.]);
    assert!(queue.is_empty());
}

#[test]
fn sites_at_one_height_come_out_left_to_right() {
    for order in [[0usize, 1, 2, 3], [3, 2, 1, 0], [2, 0, 3, 1], [1, 3, 0, 2]] {
        let xs = [10., 20., 30., 40.];
        let mut queue = EventQueue::new();
        for i in order {
            queue.push(site(xs[i], 1.));
        }
        let out: Vec<Point> = drain(&mut queue).iter().map(|e| e.point()).collect();
        assert_eq!(out, vec![pt(10., 1.), pt(20., 1.), pt(30., 1.), pt(40., 1.)]);
    }
}

#[test]
fn a_cancelled_event_does_not_come_out() {
    let mut queue = EventQueue::new();
    queue.push(site(0., 1.));
    let doomed = queue.push(circle(0., 9., 5., 3));
    queue.push(site(0., 3.));
    queue.remove(doomed);
    let out: Vec<f64> = drain(&mut queue).iter().map(height).collect();
    assert_eq!(out, vec![3., 1.]);
}

#[test]
fn cancelling_the_only_event_empties_the_queue() {
    let mut queue = EventQueue::new();
    let id = queue.push(circle(0., 9., 5., 3));
    assert!(!queue.is_empty());
    queue.remove(id);
    assert!(queue.is_empty());
    assert!(queue.pop().is_none());
}

#[test]
fn cancelling_the_top_uncovers_the_next() {
    let mut queue = EventQueue::new();
    queue.push(site(0., 1.));
    let top = queue.push(circle(0., 9., 8., 3));
    let second = queue.push(circle(0., 9., 7., 4));
    queue.remove(second);
    queue.remove(top);
    assert!(!queue.is_empty());
    let out: Vec<f64> = drain(&mut queue).iter().map(height).collect();
    assert_eq!(out, vec![1.]);
}

#[test]
fn cancelling_twice_or_an_unknown_id_changes_nothing() {
    let mut queue = EventQueue::new();
    let a = queue.push(site(0., 1.));
    let b = queue.push(site(0., 2.));
    queue.remove(b);
    queue.remove(b);
    queue.remove(77);
    assert_eq!(drain(&mut queue).len(), 1);
    queue.remove(a);
    assert!(queue.is_empty());
    assert_eq!(queue.push(site(0., 4.)), 2);
    assert_eq!(drain(&mut queue).len(), 1);
}

#[test]
fn a_popped_circle_event_names_its_arc() {
    let mut queue = EventQueue::new();
    queue.push(circle(1., 9., 8., 42));
    match queue.pop() {
        Some(VoronoiEvent::Circle(center, bottom, arc)) => {
            assert_eq!(center, pt(1., 9.));
            assert_eq!(f64::from_bits(bottom), 8.);
            assert_eq!(arc, 42);
        }
        _ => panic!("a circle event was pushed"),
    }
}

#[test]
fn many_events_with_cancellations_come_out_in_order() {
    let mut queue = EventQueue::new();
    let mut state: u64 = 12345;
    let mut ids = Vec::new();
    let mut kept = Vec::new();
    for i in 0..500usize {
        state = state.wrapping_mul(6364136223846793005).wrapping_add(1442695040888963407);
        let y = ((state >> 33) % 1000) as f64;
        let id = queue.push(circle(0., 2000., y, i));
        ids.push((id, y));
    }
    for (k, (id, y)) in ids.iter().enumerate() {
        if k % 3 == 0 {
            queue.remove(*id);
        } else {
            kept.push(*y);
        }
    }
    kept.sort_by(|a, b| b.partial_cmp(a).unwrap());
    let out: Vec<f64> = drain(&mut queue).iter().map(height).collect();
    assert_eq!(out, kept);
}
