//! The sweep: events are taken from the queue in sweep order, a site event
//! splits the arc above the site, a circle event takes an arc out of the
//! beachline and leaves a vertex, and what is left of the beachline at the
//! end is closed off against the bounding rectangle.

use crate::beachline::delete_cut;
use crate::beachline::delete_leaf;
use crate::beachline::delete_nodes;
use crate::beachline::delete_order;
use crate::beachline::delete_other;
use crate::beachline::delete_shift;
use crate::beachline::lemma_inner_arc;
use crate::beachline::split_arc;
use crate::beachline::split_nodes;
use crate::beachline::split_order;
use crate::beachline::split_shift;
use crate::beachline::Arc;
use crate::beachline::BeachItem;
use crate::beachline::BeachLine;
use crate::beachline::BeachNode;
use crate::beachline::BreakPoint;
use crate::beachline::TripleSite;
use crate::dcel::add_faces;
use crate::dcel::add_line;
use crate::dcel::chained_at;
use crate::dcel::charted;
use crate::dcel::closed_at;
use crate::dcel::corners;
use crate::dcel::faces_added;
use crate::dcel::fan;
use crate::dcel::fan_closes;
use crate::dcel::fanned;
use crate::dcel::fanned_with;
use crate::dcel::index_or_nil;
use crate::dcel::joined;
use crate::dcel::lemma_fan_closes;
use crate::dcel::lemma_fans_step;
use crate::dcel::lemma_join_keeps_fans;
use crate::dcel::lemma_joined_links;
use crate::dcel::lemma_prev_keeps_fans;
use crate::dcel::lemma_pruning_ends;
use crate::dcel::lemma_pruning_starts;
use crate::dcel::lemma_pruning_step;
use crate::dcel::lemma_start_keeps_fans;
use crate::dcel::lemma_twins_keep_fans;
use crate::dcel::line_added;
use crate::dcel::link_ok;
use crate::dcel::linked;
use crate::dcel::links_ok;
use crate::dcel::make_polygons;
use crate::dcel::no_tracer;
use crate::dcel::origin_ok;
use crate::dcel::polygons;
use crate::dcel::polygons_upto;
use crate::dcel::pruning;
use crate::dcel::rooted_at;
use crate::dcel::twin_ok;
use crate::dcel::vertex_ok;
use crate::dcel::without_edges;
use crate::dcel::DCEL;
use crate::dcel::HalfEdge;
use crate::dcel::NIL;
use crate::dcel::Vertex;
use crate::event::comes_before;
use crate::event::EventQueue;
use crate::event::VoronoiEvent;
use crate::kernel::Bounds;
use crate::kernel::Kernel;
use crate::kernel::Limits;
use crate::kernel::Segment;
use crate::point::coord_lt;
use crate::point::rank;
use crate::point::Point;
use vstd::prelude::*;

verus! {

/// The pending circle event of the arc in slot `arc`; nothing for a
/// breakpoint.
pub open spec fn pending_event(nodes: Seq<BeachNode>, arc: usize) -> Option<usize> {
    match nodes[arc as int].item {
        BeachItem::Leaf(a) => a.site_event,
        BeachItem::Internal(_) => None,
    }
}

/// The arena with the pending circle event of the arc in slot `arc` set to
/// `event`; the arena itself if the slot holds a breakpoint.
pub open spec fn with_event(nodes: Seq<BeachNode>, arc: usize, event: Option<usize>) -> Seq<BeachNode> {
    match nodes[arc as int].item {
        BeachItem::Leaf(a) => nodes.update(
            arc as int,
            BeachNode { item: BeachItem::Leaf(Arc { site: a.site, site_event: event }), ..nodes[arc as int] },
        ),
        BeachItem::Internal(_) => nodes,
    }
}

/// If the pending event `id` is a circle event, then the arc that it
/// removes is an arc of the beachline with an arc on either side, and names
/// the event as its pending event.
pub open spec fn arc_event_ok(q: EventQueue, b: BeachLine, id: usize) -> bool {
    q@[id] matches VoronoiEvent::Circle(_, _, arc) ==> {
        &&& b.is_arc(arc)
        &&& 2 <= b.place@[arc as int]
        &&& b.place@[arc as int] + 2 < b.order@.len()
        &&& pending_event(b.nodes@, arc) == Some(id)
    }
}

/// Every pending circle event removes an arc of the beachline that has an
/// arc on either side and names the event as its pending event.
pub open spec fn events_linked(q: EventQueue, b: BeachLine) -> bool {
    forall|id: usize| q@.dom().contains(id) ==> #[trigger] arc_event_ok(q, b, id)
}

/// If slot `n` holds a breakpoint of the beachline, the half-edge that it
/// traces is one of the edge list.
pub open spec fn edge_traced(b: BeachLine, d: DCEL, n: usize) -> bool {
    b.live(n) && b.nodes@[n as int].item is Internal ==> b.nodes@[n as int].item->Internal_0.halfedge
        < d.halfedges@.len()
}

/// Every breakpoint of the beachline traces a half-edge of the edge list.
pub open spec fn edges_traced(b: BeachLine, d: DCEL) -> bool {
    forall|n: usize| n < b.nodes@.len() ==> #[trigger] edge_traced(b, d, n)
}

/// Does slot `m` hold a breakpoint of the beachline that traces the
/// half-edge `e`?
pub open spec fn traces(b: BeachLine, m: usize, e: int) -> bool {
    &&& b.live(m)
    &&& b.nodes@[m as int].item is Internal
    &&& b.nodes@[m as int].item->Internal_0.halfedge == e
}

/// The half-edge `e` starts at a vertex, or a breakpoint of the beachline is
/// still tracing it.
pub open spec fn edge_owned(b: BeachLine, d: DCEL, e: int) -> bool {
    d.halfedges@[e].origin < d.vertices@.len() || exists|m: usize| #[trigger] traces(b, m, e)
}

/// Every half-edge starts at a vertex or is still being traced by a
/// breakpoint of the beachline.
pub open spec fn edges_owned(b: BeachLine, d: DCEL) -> bool {
    forall|e: int| 0 <= e < d.halfedges@.len() ==> #[trigger] edge_owned(b, d, e)
}

/// If `tracer` names a slot for the half-edge `e`, the slot holds a
/// breakpoint of the beachline that traces `e`.
pub open spec fn tracer_ok(b: BeachLine, tracer: Seq<int>, e: int) -> bool {
    tracer[e] == -1 || (0 <= tracer[e] <= usize::MAX && traces(b, tracer[e] as usize, e))
}

/// If slot `m` holds a breakpoint of the beachline, `tracer` names the slot
/// for the half-edge that the breakpoint traces.
pub open spec fn node_traced(b: BeachLine, d: DCEL, tracer: Seq<int>, m: usize) -> bool {
    b.live(m) && b.nodes@[m as int].item is Internal ==> {
        &&& b.nodes@[m as int].item->Internal_0.halfedge < d.halfedges@.len()
        &&& tracer[b.nodes@[m as int].item->Internal_0.halfedge as int] == m
    }
}

/// `back` undoes `next` on the half-edges that are finished, and `tracer`
/// names for each unfinished half-edge the breakpoint of the beachline that
/// traces it, which traces no other.
pub open spec fn open_with(b: BeachLine, d: DCEL, back: Seq<int>, tracer: Seq<int>) -> bool {
    &&& linked(d.halfedges@, back, tracer)
    &&& charted(d.halfedges@, d.vertices@, tracer)
    &&& forall|e: int| 0 <= e < d.halfedges@.len() ==> #[trigger] tracer_ok(b, tracer, e)
    &&& forall|m: usize| m < b.nodes@.len() ==> #[trigger] node_traced(b, d, tracer, m)
}

/// Leading from each half-edge to its `next` is one-to-one; the half-edges
/// that lack a `next` are the twins of those that the breakpoints of the
/// beachline trace, and those are the half-edges that are the `next` of
/// none; no two breakpoints trace the same half-edge.
pub open spec fn links_open(b: BeachLine, d: DCEL) -> bool {
    exists|back: Seq<int>, tracer: Seq<int>| #[trigger] open_with(b, d, back, tracer)
}

/// The breakpoints on either side of the arc in slot `arc` do not trace
/// the two half-edges of one pair.
pub open spec fn apart(b: BeachLine, d: DCEL, arc: usize) -> bool {
    let p = b.place@[arc as int];
    d.halfedges@[edge_of(b.nodes@, b.order@[p - 1]) as int].twin != edge_of(b.nodes@, b.order@[p + 1])
}

/// If the pending event `id` is a circle event, the breakpoints on either
/// side of the arc that it removes do not trace the two half-edges of one
/// pair.
pub open spec fn event_apart(q: EventQueue, b: BeachLine, d: DCEL, id: usize) -> bool {
    q@[id] matches VoronoiEvent::Circle(_, _, arc) ==> apart(b, d, arc)
}

/// No pending circle event removes an arc between breakpoints that trace
/// the two half-edges of one pair.
pub open spec fn events_apart(q: EventQueue, b: BeachLine, d: DCEL) -> bool {
    forall|id: usize| q@.dom().contains(id) ==> #[trigger] event_apart(q, b, d, id)
}

/// The invariant of the sweep.
pub open spec fn sweep_wf(q: EventQueue, b: BeachLine, d: DCEL) -> bool {
    &&& q.wf()
    &&& b.wf()
    &&& d.wf()
    &&& events_linked(q, b)
    &&& edges_traced(b, d)
    &&& edges_owned(b, d)
    &&& links_open(b, d)
    &&& events_apart(q, b, d)
}

/// The pending circle events stay apart where the beachline keeps its order
/// and its breakpoints, the half-edges keep their twins, and what is new
/// among the events removes an arc between breakpoints that are apart.
proof fn lemma_apart_kept(q0: EventQueue, b0: BeachLine, d0: DCEL, q: EventQueue, b: BeachLine, d: DCEL)
    requires
        events_apart(q0, b0, d0),
        b0.wf(),
        events_linked(q, b),
        same_order(b, b0),
        b.nodes@.len() == b0.nodes@.len(),
        forall|m: int|
            0 <= m < b0.nodes@.len() && (#[trigger] b0.nodes@[m]).item is Internal ==> b.nodes@[m].item
                == b0.nodes@[m].item,
        d0.halfedges@.len() <= d.halfedges@.len(),
        forall|e: int| 0 <= e < d0.halfedges@.len() ==> (#[trigger] d.halfedges@[e]).twin == d0.halfedges@[e].twin,
        edges_traced(b0, d0),
        forall|id: usize|
            q@.dom().contains(id) ==> (q0@.dom().contains(id) && q0@[id] == q@[id]) || #[trigger] event_apart(
                q,
                b,
                d,
                id,
            ),
    ensures
        events_apart(q, b, d),
{
    assert forall|id: usize| q@.dom().contains(id) implies #[trigger] event_apart(q, b, d, id) by {
        if q0@.dom().contains(id) && q0@[id] == q@[id] {
            assert(event_apart(q0, b0, d0, id));
            assert(arc_event_ok(q, b, id));
            if let VoronoiEvent::Circle(_, _, arc) = q@[id] {
                let p = b0.place@[arc as int];
                assert(b0.live(arc) == b.live(arc));
                assert(b0.nodes@[arc as int].item is Leaf);
                b0.lemma_node(arc);
                b0.lemma_at_live(p - 1);
                b0.lemma_at_live(p + 1);
                let left = b0.order@[p - 1];
                let right = b0.order@[p + 1];
                assert(edge_traced(b0, d0, left));
                assert(edge_traced(b0, d0, right));
                assert(b.nodes@[left as int].item == b0.nodes@[left as int].item);
                assert(b.nodes@[right as int].item == b0.nodes@[right as int].item);
                assert(b.order@[p - 1] == left);
                assert(b.order@[p + 1] == right);
                assert(d.halfedges@[edge_of(b0.nodes@, left) as int].twin == d0.halfedges@[edge_of(
                    b0.nodes@,
                    left,
                ) as int].twin);
            }
        }
    }
}

/// The first arc of a beachline leaves the links as they are.
proof fn lemma_links_first_site(b0: BeachLine, b: BeachLine, d: DCEL)
    requires
        b0.wf(),
        b0.order@.len() == 0,
        links_open(b0, d),
        b.nodes@.len() == 1,
        b.nodes@[0].item is Leaf,
    ensures
        links_open(b, d),
{
    let (back, tracer) = choose|back: Seq<int>, tracer: Seq<int>| #[trigger] open_with(b0, d, back, tracer);
    assert forall|e: int| 0 <= e < d.halfedges@.len() implies #[trigger] tracer_ok(b, tracer, e) by {
        assert(tracer_ok(b0, tracer, e));
    }
    assert forall|m: usize| m < b.nodes@.len() implies #[trigger] node_traced(b, d, tracer, m) by {}
    assert(open_with(b, d, back, tracer));
}

/// A change to the pending events of arcs leaves the links as they are.
proof fn lemma_links_same_order(b0: BeachLine, b: BeachLine, d: DCEL)
    requires
        links_open(b0, d),
        same_order(b, b0),
        b.nodes@.len() == b0.nodes@.len(),
        forall|m: int|
            0 <= m < b0.nodes@.len() && (#[trigger] b0.nodes@[m]).item is Internal ==> b.nodes@[m].item
                == b0.nodes@[m].item,
        forall|m: int|
            0 <= m < b0.nodes@.len() && (#[trigger] b0.nodes@[m]).item is Leaf ==> b.nodes@[m].item is Leaf,
    ensures
        links_open(b, d),
{
    let (back, tracer) = choose|back: Seq<int>, tracer: Seq<int>| #[trigger] open_with(b0, d, back, tracer);
    assert forall|e: int| 0 <= e < d.halfedges@.len() implies #[trigger] tracer_ok(b, tracer, e) by {
        assert(tracer_ok(b0, tracer, e));
        if tracer[e] != -1 {
            let m = tracer[e] as usize;
            assert(b.live(m) == b0.live(m));
        }
    }
    assert forall|m: usize| m < b.nodes@.len() implies #[trigger] node_traced(b, d, tracer, m) by {
        assert(node_traced(b0, d, tracer, m));
        assert(b.live(m) == b0.live(m));
    }
    assert(open_with(b, d, back, tracer));
}

/// A split adds two unfinished half-edges, traced by the two new
/// breakpoints, and leaves the other links as they are.
proof fn lemma_links_after_split(b1: BeachLine, b2: BeachLine, d0: DCEL, d2: DCEL, arc: usize)
    requires
        b1.wf(),
        b2.wf(),
        d0.wf(),
        b1.is_arc(arc),
        links_open(b1, d0),
        b1.nodes@.len() + 5 < NIL,
        d0.halfedges@.len() + 2 < NIL,
        d2.halfedges@ == with_twins(d0.halfedges@),
        d2.vertices@ == d0.vertices@,
        b2.nodes@.len() == b1.nodes@.len() + 5,
        forall|m: int| 0 <= m < b1.nodes@.len() ==> (#[trigger] b2.nodes@[m]).item == b1.nodes@[m].item,
        forall|m: usize|
            #![trigger b1.live(m)]
            #![trigger b2.live(m)]
            m < b1.nodes@.len() ==> b2.live(m) == (b1.live(m) && m != arc),
        traces(b2, b1.nodes@.len() as usize, d0.halfedges@.len() as int),
        traces(b2, (b1.nodes@.len() + 1) as usize, d0.halfedges@.len() as int + 1),
        forall|m: usize|
            b1.nodes@.len() + 2 <= m < b2.nodes@.len() ==> (#[trigger] b2.nodes@[m as int]).item is Leaf,
    ensures
        links_open(b2, d2),
{
    let n = b1.nodes@.len() as int;
    let h = d0.halfedges@.len() as int;
    let (back, tracer) = choose|back: Seq<int>, tracer: Seq<int>| #[trigger] open_with(b1, d0, back, tracer);
    let grown = back.push(-1).push(-1);
    let marked = tracer.push(n).push(n + 1);
    assert forall|x: int| 0 <= x < d2.halfedges@.len() implies #[trigger] link_ok(
        d2.halfedges@,
        grown,
        marked,
        x,
    ) by {
        if x < h {
            assert(link_ok(d0.halfedges@, back, tracer, x));
            assert(twin_ok(d0.halfedges@, x));
            if back[x] != -1 {
                assert(link_ok(d0.halfedges@, back, tracer, back[x]));
            }
        }
    }
    assert forall|e: int| 0 <= e < d2.halfedges@.len() implies #[trigger] tracer_ok(b2, marked, e) by {
        if e < h {
            assert(tracer_ok(b1, tracer, e));
            if tracer[e] != -1 {
                let m = tracer[e] as usize;
                assert(b1.live(m));
                assert(b2.live(m));
                assert(b2.nodes@[m as int].item == b1.nodes@[m as int].item);
            }
        }
    }
    assert forall|m: usize| m < b2.nodes@.len() implies #[trigger] node_traced(b2, d2, marked, m) by {
        if m < n {
            assert(node_traced(b1, d0, tracer, m));
            assert(b2.nodes@[m as int].item == b1.nodes@[m as int].item);
            if b2.live(m) {
                assert(b1.live(m));
            }
        }
    }
    assert forall|x: int| 0 <= x < d2.halfedges@.len() implies #[trigger] origin_ok(d2.halfedges@, marked, x) by {
        if x < h {
            assert(origin_ok(d0.halfedges@, tracer, x));
            assert(twin_ok(d0.halfedges@, x));
            assert(links_ok(d0.halfedges@, x, d0.vertices@.len() as int, d0.faces@.len() as int));
        }
    }
    assert forall|v: int| 0 <= v < d2.vertices@.len() implies #[trigger] vertex_ok(
        d2.halfedges@,
        d2.vertices@,
        v,
    ) by {
        assert(vertex_ok(d0.halfedges@, d0.vertices@, v));
        let s = d0.vertices@[v].incident_edge as int;
        assert(twin_ok(d0.halfedges@, s));
    }
    assert(open_with(b2, d2, grown, marked));
}

/// Two beachlines that differ in their arena at most.
pub open spec fn same_order(a: BeachLine, b: BeachLine) -> bool {
    &&& a.order == b.order
    &&& a.place == b.place
    &&& a.first == b.first
    &&& a.end == b.end
    &&& a.root == b.root
}

/// Cancels the pending circle event of an arc, if it has one.
pub fn remove_circle_event(this_arc: usize, queue: &mut EventQueue, beachline: &mut BeachLine)
    requires
        old(queue).wf(),
        old(beachline).wf(),
        events_linked(*old(queue), *old(beachline)),
        this_arc < old(beachline).nodes@.len(),
    ensures
        final(queue).wf(),
        final(beachline).wf(),
        events_linked(*final(queue), *final(beachline)),
        final(queue).next_event_id == old(queue).next_event_id,
        final(queue)@ == match pending_event(old(beachline).nodes@, this_arc) {
            Some(id) => old(queue)@.remove(id),
            None => old(queue)@,
        },
        same_order(*final(beachline), *old(beachline)),
        final(beachline).nodes@ == with_event(old(beachline).nodes@, this_arc, None),
{
    let mut circle_event = None;
    if let BeachItem::Leaf(arc) = beachline.nodes[this_arc].item {
        circle_event = arc.site_event;
        beachline.set_site_event(this_arc, None);
    }
    if let Some(circle_node) = circle_event {
        queue.remove(circle_node);
    }
    proof {
        assert(beachline.nodes@ =~= with_event(old(beachline).nodes@, this_arc, None));
        assert forall|id: usize| queue@.dom().contains(id) implies #[trigger] arc_event_ok(
            *queue,
            *beachline,
            id,
        ) by {
            assert(arc_event_ok(*old(queue), *old(beachline), id));
        }
    }
}

/// Is `found` what the kernel gave for the circle through the sites of
/// `triple`: its centre and the y coordinate of its far side, or nothing
/// where the kernel gave no centre or no far side?
pub open spec fn circle_found<K: Kernel>(kernel: &K, triple: TripleSite, found: Option<(Point, u64)>) -> bool {
    exists|c: Option<Point>|
        {
            &&& #[trigger] call_ensures(K::circle_center, (kernel, triple.0, triple.1, triple.2), c)
            &&& match c {
                None => found is None,
                Some(center) => exists|b: Option<u64>|
                    {
                        &&& #[trigger] call_ensures(
                            K::circle_bottom,
                            (kernel, triple.0, triple.1, triple.2),
                            b,
                        )
                        &&& match b {
                            None => found is None,
                            Some(y) => found == Some((center, y)),
                        }
                    },
            }
        }
}

/// Is `found` the circle event that three neighbouring arcs call for: the
/// circle that the kernel gave for their sites if there are three arcs and
/// the kernel found their breakpoints to converge, and nothing otherwise?
pub open spec fn circle_due<K: Kernel>(kernel: &K, triple: Option<TripleSite>, found: Option<(Point, u64)>) -> bool {
    match triple {
        None => found is None,
        Some(t) => exists|converge: bool|
            {
                &&& #[trigger] call_ensures(K::breakpoints_converge, (kernel, t.0, t.1, t.2), converge)
                &&& if converge {
                    circle_found(kernel, t, found)
                } else {
                    found is None
                }
            },
    }
}

/// The pending events after the circle event `found`, if there is one, has
/// been entered for the arc in slot `arc` under the id `id`.
pub open spec fn events_with(
    events: Map<usize, VoronoiEvent>,
    id: usize,
    arc: usize,
    found: Option<(Point, u64)>,
) -> Map<usize, VoronoiEvent> {
    match found {
        None => events,
        Some((center, y)) => events.insert(id, VoronoiEvent::Circle(center, y, arc)),
    }
}

/// The arena after the circle event `found`, if there is one, has been
/// entered for the arc in slot `arc` under the id `id`.
pub open spec fn nodes_with(
    nodes: Seq<BeachNode>,
    id: usize,
    arc: usize,
    found: Option<(Point, u64)>,
) -> Seq<BeachNode> {
    match found {
        None => nodes,
        Some(_) => with_event(nodes, arc, Some(id)),
    }
}

/// The id that the next event gets after the circle event `found`, if
/// there is one, has been entered under the id `id`.
pub open spec fn id_after(id: usize, found: Option<(Point, u64)>) -> int {
    match found {
        None => id as int,
        Some(_) => id + 1,
    }
}

/// Enters a circle event for the arc in slot `leaf`, which is the middle
/// one of three arcs with the sites of `triple`, unless the kernel finds no
/// circle through the three sites.
pub fn make_circle_event<K: Kernel>(
    kernel: &K,
    leaf: usize,
    triple: TripleSite,
    queue: &mut EventQueue,
    beachline: &mut BeachLine,
)
    requires
        old(queue).wf(),
        old(beachline).wf(),
        events_linked(*old(queue), *old(beachline)),
        old(queue).next_event_id < usize::MAX,
        old(beachline).is_arc(leaf),
        2 <= old(beachline).place@[leaf as int],
        old(beachline).place@[leaf as int] + 2 < old(beachline).order@.len(),
        pending_event(old(beachline).nodes@, leaf) is None,
    ensures
        final(queue).wf(),
        final(beachline).wf(),
        events_linked(*final(queue), *final(beachline)),
        same_order(*final(beachline), *old(beachline)),
        exists|found: Option<(Point, u64)>|
            {
                &&& #[trigger] circle_found(kernel, triple, found)
                &&& final(queue)@ == events_with(old(queue)@, old(queue).next_event_id, leaf, found)
                &&& final(queue).next_event_id == id_after(old(queue).next_event_id, found)
                &&& final(beachline).nodes@ == nodes_with(
                    old(beachline).nodes@,
                    old(queue).next_event_id,
                    leaf,
                    found,
                )
            },
{
    let center = kernel.circle_center(triple.0, triple.1, triple.2);
    if let Some(circle_center) = center {
        let bottom = kernel.circle_bottom(triple.0, triple.1, triple.2);
        if let Some(circle_bottom) = bottom {
            let this_event = VoronoiEvent::Circle(circle_center, circle_bottom, leaf);
            let event_id = queue.push(this_event);
            beachline.set_site_event(leaf, Some(event_id));
            proof {
                let found = Some((circle_center, circle_bottom));
                assert(circle_found(kernel, triple, found));
                assert(beachline.nodes@ =~= nodes_with(old(beachline).nodes@, event_id, leaf, found));
                assert forall|id: usize| queue@.dom().contains(id) implies #[trigger] arc_event_ok(
                    *queue,
                    *beachline,
                    id,
                ) by {
                    if id != event_id {
                        assert(arc_event_ok(*old(queue), *old(beachline), id));
                    }
                }
            }
        } else {
            proof {
                assert(circle_found(kernel, triple, None));
            }
        }
    } else {
        proof {
            assert(circle_found(kernel, triple, None));
        }
    }
}

/// Enters the circle event that three neighbouring arcs call for, if they
/// call for one. The arc in slot `arc` is the middle one of the three.
/// Returns, as a ghost, the circle that was entered.
fn check_circle_event<K: Kernel>(
    kernel: &K,
    arc: usize,
    triple: Option<TripleSite>,
    queue: &mut EventQueue,
    beachline: &mut BeachLine,
) -> (found: Ghost<Option<(Point, u64)>>)
    requires
        old(queue).wf(),
        old(beachline).wf(),
        events_linked(*old(queue), *old(beachline)),
        old(queue).next_event_id < usize::MAX,
        triple is Some ==> {
            &&& old(beachline).is_arc(arc)
            &&& 2 <= old(beachline).place@[arc as int]
            &&& old(beachline).place@[arc as int] + 2 < old(beachline).order@.len()
            &&& pending_event(old(beachline).nodes@, arc) is None
        },
    ensures
        final(queue).wf(),
        final(beachline).wf(),
        events_linked(*final(queue), *final(beachline)),
        same_order(*final(beachline), *old(beachline)),
        circle_due(kernel, triple, found@),
        final(queue)@ == events_with(old(queue)@, old(queue).next_event_id, arc, found@),
        final(queue).next_event_id == id_after(old(queue).next_event_id, found@),
        final(beachline).nodes@ == nodes_with(old(beachline).nodes@, old(queue).next_event_id, arc, found@),
{
    if let Some(t) = triple {
        let converge = kernel.breakpoints_converge(t.0, t.1, t.2);
        if converge {
            make_circle_event(kernel, arc, t, queue, beachline);
            let ghost found = choose|found: Option<(Point, u64)>|
                {
                    &&& #[trigger] circle_found(kernel, t, found)
                    &&& queue@ == events_with(old(queue)@, old(queue).next_event_id, arc, found)
                    &&& queue.next_event_id == id_after(old(queue).next_event_id, found)
                    &&& beachline.nodes@ == nodes_with(
                        old(beachline).nodes@,
                        old(queue).next_event_id,
                        arc,
                        found,
                    )
                };
            proof {
                assert(call_ensures(K::breakpoints_converge, (kernel, t.0, t.1, t.2), converge));
                assert(circle_due(kernel, triple, found));
            }
            Ghost(found)
        } else {
            proof {
                assert(call_ensures(K::breakpoints_converge, (kernel, t.0, t.1, t.2), converge));
                assert(circle_due(kernel, triple, None));
            }
            Ghost(None)
        }
    } else {
        proof {
            assert(circle_due(kernel, triple, None));
        }
        Ghost(None)
    }
}

/// The pending events without the event `id`, if that is an event.
pub open spec fn events_without(events: Map<usize, VoronoiEvent>, id: Option<usize>) -> Map<
    usize,
    VoronoiEvent,
> {
    match id {
        Some(e) => events.remove(e),
        None => events,
    }
}

/// The half-edges with a fresh twin pair behind them.
pub open spec fn with_twins(he: Seq<HalfEdge>) -> Seq<HalfEdge> {
    he.push(
        HalfEdge { origin: NIL, twin: (he.len() + 1) as usize, next: NIL, face: NIL, prev: NIL, alive: true },
    ).push(HalfEdge { origin: NIL, twin: he.len() as usize, next: NIL, face: NIL, prev: NIL, alive: true })
}

/// Is the second state what a site event at `site` makes of the first, given
/// that the kernel sent the site to the arc in slot `arc` and that `left` and
/// `right` are the circle events that the kernel called for on either side
/// of the new arc?
///
/// The pending event of the arc is cancelled, the arc is split round a new
/// arc for the site, and the two halves of the old arc get the circle
/// events that they call for with their neighbours.
pub open spec fn site_split<K: Kernel>(
    kernel: &K,
    site: Point,
    q0: EventQueue,
    b0: BeachLine,
    d0: DCEL,
    q: EventQueue,
    b: BeachLine,
    d: DCEL,
    arc: usize,
    left: Option<(Point, u64)>,
    right: Option<(Point, u64)>,
) -> bool {
    let n = b0.nodes@.len() as usize;
    let p = b0.place@[arc as int];
    let id = q0.next_event_id;
    let left_triple = if p >= 2 {
        Some((b0.site_of(b0.order@[p - 2]), b0.site_of(arc), site))
    } else {
        None
    };
    let right_triple = if p + 2 < b0.order@.len() {
        Some((site, b0.site_of(arc), b0.site_of(b0.order@[p + 2])))
    } else {
        None
    };
    let split = split_nodes(with_event(b0.nodes@, arc, None), arc, site, d0.halfedges@.len() as usize);
    &&& b0.is_arc(arc)
    &&& forall|a: usize| #[trigger] b0.is_ancestor(a, arc) ==> b0.sent_to(kernel, site, a, p, p + 1)
    &&& circle_due(kernel, left_triple, left)
    &&& circle_due(kernel, right_triple, right)
    &&& b.order@ == split_order(b0.order@, p, n)
    &&& b.nodes@ == nodes_with(
        nodes_with(split, id, (n + 2) as usize, left),
        id_after(id, left) as usize,
        (n + 4) as usize,
        right,
    )
    &&& q@ == events_with(
        events_with(events_without(q0@, pending_event(b0.nodes@, arc)), id, (n + 2) as usize, left),
        id_after(id, left) as usize,
        (n + 4) as usize,
        right,
    )
    &&& q.next_event_id == id_after(id_after(id, left) as usize, right)
    &&& d.halfedges@ == with_twins(d0.halfedges@)
    &&& d.vertices@ == d0.vertices@
    &&& d.faces@ == d0.faces@
}

/// Is the second state what a site event at `site` makes of the first?
///
/// The first site becomes the only arc of the beachline. Every later site
/// splits the arc to which the kernel sends it.
pub open spec fn site_handled<K: Kernel>(
    kernel: &K,
    site: Point,
    q0: EventQueue,
    b0: BeachLine,
    d0: DCEL,
    q: EventQueue,
    b: BeachLine,
    d: DCEL,
) -> bool {
    if b0.order@.len() == 0 {
        &&& b.order@ == seq![0usize]
        &&& b.nodes@ == seq![
            BeachNode {
                parent: None,
                left_child: None,
                right_child: None,
                item: BeachItem::Leaf(Arc { site, site_event: None }),
            },
        ]
        &&& q@ == q0@
        &&& q.next_event_id == q0.next_event_id
        &&& d.halfedges@ == d0.halfedges@
        &&& d.vertices@ == d0.vertices@
        &&& d.faces@ == d0.faces@
    } else {
        exists|arc: usize, left: Option<(Point, u64)>, right: Option<(Point, u64)>| #[trigger]
            site_split(kernel, site, q0, b0, d0, q, b, d, arc, left, right)
    }
}

/// What holds after the arc above a site has lost its pending event and
/// has been split: the invariant of the sweep, and what the two halves of
/// the arc and their neighbours are.
proof fn lemma_site_after_split(
    q0: EventQueue,
    b0: BeachLine,
    d0: DCEL,
    q1: EventQueue,
    b1: BeachLine,
    b2: BeachLine,
    d2: DCEL,
    arc: usize,
    site: Point,
)
    requires
        sweep_wf(q0, b0, d0),
        b0.is_arc(arc),
        b0.nodes@.len() + 5 < NIL,
        q1.wf(),
        b1.wf(),
        events_linked(q1, b1),
        same_order(b1, b0),
        b1.nodes@ == with_event(b0.nodes@, arc, None),
        b2.wf(),
        d2.wf(),
        d2.halfedges@ == with_twins(d0.halfedges@),
        b2.nodes@ == split_nodes(b1.nodes@, arc, site, d0.halfedges@.len() as usize),
        b2.order@ == split_order(b1.order@, b1.place@[arc as int], b1.nodes@.len() as usize),
        b2.nodes@.len() == b1.nodes@.len() + 5,
        b2.order@.len() == b1.order@.len() + 4,
        forall|m: int| 0 <= m < b1.nodes@.len() ==> (#[trigger] b2.nodes@[m]).item == b1.nodes@[m].item,
        forall|m: usize|
            #![trigger b1.live(m)]
            #![trigger b2.live(m)]
            m < b1.nodes@.len() ==> {
                &&& b2.live(m) == (b1.live(m) && m != arc)
                &&& b1.live(m) && m != arc ==> b2.place@[m as int] == split_shift(
                    b1.place@[m as int],
                    b1.place@[arc as int],
                )
            },
        b2.is_arc((b0.nodes@.len() + 3) as usize),
        b2.place@[b0.nodes@.len() as int + 3] == b0.place@[arc as int] + 2,
        d2.vertices@ == d0.vertices@,
    ensures
        events_linked(q1, b2),
        edges_traced(b2, d2),
        edges_owned(b2, d2),
        ({
            let n = b0.nodes@.len() as int;
            let p = b0.place@[arc as int];
            &&& b2.order@[p] == n + 2
            &&& b2.order@[p + 4] == n + 4
            &&& b2.is_arc((n + 2) as usize)
            &&& b2.is_arc((n + 4) as usize)
            &&& b2.place@[n + 2] == p
            &&& b2.place@[n + 4] == p + 4
            &&& b2.site_of((n + 2) as usize) == b0.site_of(arc)
            &&& b2.site_of((n + 3) as usize) == site
            &&& b2.site_of((n + 4) as usize) == b0.site_of(arc)
            &&& pending_event(b2.nodes@, (n + 2) as usize) is None
            &&& pending_event(b2.nodes@, (n + 4) as usize) is None
            &&& p >= 2 ==> b2.order@[p - 2] == b0.order@[p - 2] && b2.site_of(b2.order@[p - 2]) == b0.site_of(
                b0.order@[p - 2],
            )
            &&& p + 2 < b0.order@.len() ==> b2.order@[p + 6] == b0.order@[p + 2] && b2.site_of(
                b2.order@[p + 6],
            ) == b0.site_of(b0.order@[p + 2])
        }),
{
    let n = b0.nodes@.len() as int;
    let p = b0.place@[arc as int];
    b0.lemma_node(arc);
    b0.lemma_at_live(p - 2);
    b0.lemma_at_live(p + 2);
    b2.lemma_at_live(p);
    b2.lemma_at_live(p + 4);
    assert(b2.order@[p] == n + 2);
    assert(b2.order@[p + 4] == n + 4);
    if p >= 2 {
        assert(b2.order@[p - 2] == b0.order@[p - 2]);
        assert(b2.nodes@[b0.order@[p - 2] as int].item == b1.nodes@[b0.order@[p - 2] as int].item);
    }
    if p + 2 < b0.order@.len() {
        assert(b2.order@[p + 6] == b0.order@[p + 2]);
        assert(b2.nodes@[b0.order@[p + 2] as int].item == b1.nodes@[b0.order@[p + 2] as int].item);
    }
    assert forall|id: usize| q1@.dom().contains(id) implies #[trigger] arc_event_ok(q1, b2, id) by {
        assert(arc_event_ok(q1, b1, id));
        if let VoronoiEvent::Circle(_, _, a) = q1@[id] {
            assert(b1.live(a));
            assert(a != arc);
            assert(b2.live(a));
            assert(b2.nodes@[a as int].item == b1.nodes@[a as int].item);
        }
    }
    assert forall|m: usize| m < b2.nodes@.len() implies #[trigger] edge_traced(b2, d2, m) by {
        if m < n {
            assert(edge_traced(b0, d0, m));
            assert(b1.live(m) == b0.live(m));
            assert(b2.nodes@[m as int].item == b1.nodes@[m as int].item);
        }
    }
    let h = d0.halfedges@.len() as int;
    b2.lemma_at_live(p + 1);
    b2.lemma_at_live(p + 3);
    assert(b2.order@[p + 1] == n);
    assert(b2.order@[p + 3] == n + 1);
    assert forall|e: int| 0 <= e < d2.halfedges@.len() implies #[trigger] edge_owned(b2, d2, e) by {
        if e < h {
            assert(edge_owned(b0, d0, e));
            if !(d0.halfedges@[e].origin < d0.vertices@.len()) {
                let m = choose|m: usize| #[trigger] traces(b0, m, e);
                assert(m != arc);
                assert(b1.live(m) == b0.live(m));
                assert(b2.live(m));
                assert(b2.nodes@[m as int].item == b1.nodes@[m as int].item);
                assert(traces(b2, m, e));
            }
        } else if e == h {
            assert(traces(b2, n as usize, e));
        } else {
            assert(traces(b2, (n + 1) as usize, e));
        }
    }
}

/// Entering circle events leaves the breakpoints tracing their half-edges.
proof fn lemma_traced_same_order(b0: BeachLine, b: BeachLine, d: DCEL)
    requires
        edges_traced(b0, d),
        edges_owned(b0, d),
        same_order(b, b0),
        b.nodes@.len() == b0.nodes@.len(),
        forall|m: int|
            0 <= m < b0.nodes@.len() && (#[trigger] b0.nodes@[m]).item is Internal ==> b.nodes@[m].item
                == b0.nodes@[m].item,
        forall|m: int|
            0 <= m < b0.nodes@.len() && (#[trigger] b0.nodes@[m]).item is Leaf ==> b.nodes@[m].item is Leaf,
    ensures
        edges_traced(b, d),
        edges_owned(b, d),
{
    assert forall|m: usize| m < b.nodes@.len() implies #[trigger] edge_traced(b, d, m) by {
        assert(edge_traced(b0, d, m));
        assert(b.live(m) == b0.live(m));
    }
    assert forall|e: int| 0 <= e < d.halfedges@.len() implies #[trigger] edge_owned(b, d, e) by {
        assert(edge_owned(b0, d, e));
        if !(d.halfedges@[e].origin < d.vertices@.len()) {
            let m = choose|m: usize| #[trigger] traces(b0, m, e);
            assert(b.live(m) == b0.live(m));
            assert(traces(b, m, e));
        }
    }
}

/// A split leaves the pending circle events apart: it changes neither the
/// breakpoints next to the arcs that they remove nor the twins of the
/// half-edges that those trace.
proof fn lemma_apart_after_split(q: EventQueue, b1: BeachLine, b2: BeachLine, d0: DCEL, d2: DCEL, arc: usize)
    requires
        b1.wf(),
        b2.wf(),
        d0.wf(),
        b1.is_arc(arc),
        events_linked(q, b1),
        events_apart(q, b1, d0),
        edges_traced(b1, d0),
        pending_event(b1.nodes@, arc) is None,
        d2.halfedges@ == with_twins(d0.halfedges@),
        b2.order@ == split_order(b1.order@, b1.place@[arc as int], b1.nodes@.len() as usize),
        forall|m: int| 0 <= m < b1.nodes@.len() ==> (#[trigger] b2.nodes@[m]).item == b1.nodes@[m].item,
        forall|m: usize|
            #![trigger b1.live(m)]
            #![trigger b2.live(m)]
            m < b1.nodes@.len() ==> {
                &&& b2.live(m) == (b1.live(m) && m != arc)
                &&& b1.live(m) && m != arc ==> b2.place@[m as int] == split_shift(
                    b1.place@[m as int],
                    b1.place@[arc as int],
                )
            },
    ensures
        events_apart(q, b2, d2),
{
    let p = b1.place@[arc as int];
    assert forall|id: usize| q@.dom().contains(id) implies #[trigger] event_apart(q, b2, d2, id) by {
        assert(event_apart(q, b1, d0, id));
        assert(arc_event_ok(q, b1, id));
        if let VoronoiEvent::Circle(_, _, a) = q@[id] {
            let pa = b1.place@[a as int];
            assert(a != arc);
            assert(b1.live(a));
            b1.lemma_at_live(pa - 1);
            b1.lemma_at_live(pa + 1);
            b1.lemma_at_live(pa);
            b1.lemma_at_live(p);
            assert(pa != p);
            let left = b1.order@[pa - 1];
            let right = b1.order@[pa + 1];
            assert(edge_traced(b1, d0, left));
            assert(edge_traced(b1, d0, right));
            let pb = b2.place@[a as int];
            assert(pb == split_shift(pa, p));
            if pa < p {
                assert(b2.order@[pb - 1] == left);
                assert(b2.order@[pb + 1] == right);
            } else {
                assert(b2.order@[pb - 1] == left);
                assert(b2.order@[pb + 1] == right);
            }
            assert(b2.nodes@[left as int].item == b1.nodes@[left as int].item);
            assert(b2.nodes@[right as int].item == b1.nodes@[right as int].item);
        }
    }
}

/// After a split, the breakpoints on either side of each half of the arc
/// that was split do not trace the two half-edges of one pair: one of them
/// is new and traces a new half-edge, the other was there and traces a
/// half-edge whose twin was there.
proof fn lemma_apart_new_arcs(b0: BeachLine, b1: BeachLine, b2: BeachLine, d0: DCEL, d2: DCEL, arc: usize)
    requires
        b1.wf(),
        b2.wf(),
        d0.wf(),
        b1.is_arc(arc),
        edges_traced(b1, d0),
        same_order(b1, b0),
        d0.halfedges@.len() + 2 < NIL,
        b1.nodes@.len() + 5 < NIL,
        d2.halfedges@ == with_twins(d0.halfedges@),
        b2.order@ == split_order(b1.order@, b1.place@[arc as int], b1.nodes@.len() as usize),
        b2.order@.len() == b1.order@.len() + 4,
        forall|m: int| 0 <= m < b1.nodes@.len() ==> (#[trigger] b2.nodes@[m]).item == b1.nodes@[m].item,
        traces(b2, b1.nodes@.len() as usize, d0.halfedges@.len() as int),
        traces(b2, (b1.nodes@.len() + 1) as usize, d0.halfedges@.len() as int + 1),
        b2.place@[b1.nodes@.len() as int + 2] == b1.place@[arc as int],
        b2.place@[b1.nodes@.len() as int + 4] == b1.place@[arc as int] + 4,
    ensures
        b1.place@[arc as int] >= 2 ==> apart(b2, d2, (b1.nodes@.len() + 2) as usize),
        b1.place@[arc as int] + 2 < b1.order@.len() ==> apart(b2, d2, (b1.nodes@.len() + 4) as usize),
{
    let p = b1.place@[arc as int];
    let n = b1.nodes@.len() as int;
    let h = d0.halfedges@.len() as int;
    b1.lemma_at_live(p - 1);
    b1.lemma_at_live(p + 1);
    b2.lemma_at_live(p + 1);
    b2.lemma_at_live(p + 3);
    assert(b2.order@[p + 1] == n);
    assert(b2.order@[p + 3] == n + 1);
    if p >= 2 {
        let left = b1.order@[p - 1];
        assert(b2.order@[p - 1] == left);
        assert(edge_traced(b1, d0, left));
        assert(b2.nodes@[left as int].item == b1.nodes@[left as int].item);
        assert(twin_ok(d0.halfedges@, edge_of(b1.nodes@, left) as int));
    }
    if p + 2 < b1.order@.len() {
        let right = b1.order@[p + 1];
        assert(b2.order@[p + 5] == right);
        assert(edge_traced(b1, d0, right));
        assert(b2.nodes@[right as int].item == b1.nodes@[right as int].item);
    }
}

/// Handles the event of the sweep line reaching a site.
pub fn handle_site_event<K: Kernel>(
    kernel: &K,
    site: Point,
    queue: &mut EventQueue,
    beachline: &mut BeachLine,
    result: &mut DCEL,
)
    requires
        sweep_wf(*old(queue), *old(beachline), *old(result)),
        old(queue).next_event_id + 2 <= usize::MAX,
        old(beachline).nodes@.len() + 5 < NIL,
        old(result).halfedges@.len() + 2 < NIL,
    ensures
        sweep_wf(*final(queue), *final(beachline), *final(result)),
        site_handled(
            kernel,
            site,
            *old(queue),
            *old(beachline),
            *old(result),
            *final(queue),
            *final(beachline),
            *final(result),
        ),
{
    if beachline.is_empty() {
        beachline.insert_point(site);
        proof {
            assert forall|id: usize| queue@.dom().contains(id) implies #[trigger] arc_event_ok(
                *queue,
                *beachline,
                id,
            ) by {
                assert(arc_event_ok(*old(queue), *old(beachline), id));
            }
            assert forall|n: usize| n < beachline.nodes@.len() implies #[trigger] edge_traced(
                *beachline,
                *result,
                n,
            ) by {}
            assert forall|e: int| 0 <= e < result.halfedges@.len() implies #[trigger] edge_owned(
                *beachline,
                *result,
                e,
            ) by {
                assert(edge_owned(*old(beachline), *old(result), e));
                if !(result.halfedges@[e].origin < result.vertices@.len()) {
                    let m = choose|m: usize| #[trigger] traces(*old(beachline), m, e);
                    assert(old(beachline).live(m));
                }
            }
            lemma_links_first_site(*old(beachline), *beachline, *result);
            assert forall|id: usize| queue@.dom().contains(id) implies #[trigger] event_apart(
                *queue,
                *beachline,
                *result,
                id,
            ) by {
                assert(arc_event_ok(*old(queue), *old(beachline), id));
            }
        }
        return ;
    }
    let ghost q0 = *queue;
    let ghost b0 = *beachline;
    let ghost d0 = *result;

    let arc_above = beachline.get_arc_above(kernel, site);

    // remove false alarm from queue
    remove_circle_event(arc_above, queue, beachline);
    let ghost q1 = *queue;
    let ghost b1 = *beachline;
    proof {
        b0.lemma_node(arc_above);
        assert(b1.nodes@.len() == b0.nodes@.len());
        lemma_links_same_order(b0, b1, d0);
        lemma_traced_same_order(b0, b1, d0);
        lemma_apart_kept(q0, b0, d0, q1, b1, d0);
    }

    let new_node = split_arc(arc_above, site, beachline, result);
    let ghost b2 = *beachline;
    proof {
        lemma_site_after_split(q0, b0, d0, q1, b1, b2, *result, arc_above, site);
        let n = b0.nodes@.len() as int;
        let p = b0.place@[arc_above as int];
        b2.lemma_at_live(p + 1);
        b2.lemma_at_live(p + 3);
        assert(b2.order@[p + 1] == n);
        assert(b2.order@[p + 3] == n + 1);
        lemma_links_after_split(b1, b2, d0, *result, arc_above);
        lemma_apart_after_split(q1, b1, b2, d0, *result, arc_above);
    }

    let left_triple = beachline.get_leftward_triple(new_node);
    let left_arc = beachline.get_left_arc(Some(new_node)).unwrap();
    let left = check_circle_event(kernel, left_arc, left_triple, queue, beachline);
    let ghost q3 = *queue;
    let ghost b3 = *beachline;

    let right_triple = beachline.get_rightward_triple(new_node);
    let right_arc = beachline.get_right_arc(Some(new_node)).unwrap();
    let right = check_circle_event(kernel, right_arc, right_triple, queue, beachline);
    proof {
        lemma_traced_same_order(b2, b3, *result);
        lemma_traced_same_order(b3, *beachline, *result);
        lemma_links_same_order(b2, b3, *result);
        lemma_links_same_order(b3, *beachline, *result);
        lemma_apart_new_arcs(b0, b1, b2, d0, *result, arc_above);
        assert forall|id: usize| q3@.dom().contains(id) implies (q1@.dom().contains(id) && q1@[id] == q3@[id])
            || #[trigger] event_apart(q3, b3, *result, id) by {
            if !(q1@.dom().contains(id) && q1@[id] == q3@[id]) {
                assert(apart(b2, *result, left_arc));
                assert(apart(b3, *result, left_arc));
            }
        }
        lemma_apart_kept(q1, b2, *result, q3, b3, *result);
        assert forall|id: usize| queue@.dom().contains(id) implies (q3@.dom().contains(id) && q3@[id]
            == queue@[id]) || #[trigger] event_apart(*queue, *beachline, *result, id) by {
            if !(q3@.dom().contains(id) && q3@[id] == queue@[id]) {
                assert(apart(b2, *result, right_arc));
                assert(apart(*beachline, *result, right_arc));
            }
        }
        lemma_apart_kept(q3, b3, *result, *queue, *beachline, *result);
        assert(site_split(
            kernel,
            site,
            q0,
            b0,
            d0,
            *queue,
            *beachline,
            *result,
            arc_above,
            left@,
            right@,
        ));
    }
}

/// The pending event `id` is not a circle event that removes the arc in
/// slot `leaf`.
pub open spec fn not_for(q: EventQueue, id: usize, leaf: usize) -> bool {
    q@[id] matches VoronoiEvent::Circle(_, _, arc) ==> arc != leaf
}

/// No pending circle event removes the arc in slot `leaf`.
pub open spec fn arc_free(q: EventQueue, leaf: usize) -> bool {
    forall|id: usize| q@.dom().contains(id) ==> #[trigger] not_for(q, id, leaf)
}

/// The half-edge that the breakpoint in slot `n` traces.
pub open spec fn edge_of(nodes: Seq<BeachNode>, n: usize) -> usize {
    nodes[n as int].item->Internal_0.halfedge
}

/// The arena with the breakpoint in slot `n` tracing the half-edge `edge`.
pub open spec fn with_edge(nodes: Seq<BeachNode>, n: usize, edge: usize) -> Seq<BeachNode> {
    nodes.update(
        n as int,
        BeachNode {
            item: BeachItem::Internal(BreakPoint { halfedge: edge, ..nodes[n as int].item->Internal_0 }),
            ..nodes[n as int]
        },
    )
}

/// Is the second state what a circle event makes of the first, given that
/// `left` and `right` are the circle events that the kernel called for on
/// the arcs to the left and to the right of the arc that disappears?
///
/// The arc in slot `leaf` leaves the beachline with its parent. Its pending
/// event and those of its two neighbours are cancelled. A vertex at `center`
/// joins the boundaries that the breakpoints on either side of the arc were
/// tracing, and the breakpoint that stays traces the boundary that leaves
/// the vertex. The two neighbours get the circle events that they call for
/// in their new surroundings.
pub open spec fn circle_handled<K: Kernel>(
    kernel: &K,
    leaf: usize,
    center: Point,
    q0: EventQueue,
    b0: BeachLine,
    d0: DCEL,
    q: EventQueue,
    b: BeachLine,
    d: DCEL,
    left: Option<(Point, u64)>,
    right: Option<(Point, u64)>,
) -> bool {
    let p = b0.place@[leaf as int];
    let left_arc = b0.order@[p - 2];
    let right_arc = b0.order@[p + 2];
    let pred = b0.order@[p - 1];
    let succ = b0.order@[p + 1];
    let parent = b0.nodes@[leaf as int].parent->0;
    let other = delete_other(b0, leaf);
    let id = q0.next_event_id;
    let cleared = with_event(
        with_event(with_event(delete_nodes(b0, leaf), leaf, None), left_arc, None),
        right_arc,
        None,
    );
    let traced = with_edge(cleared, other, (d0.halfedges@.len() + 1) as usize);
    let pending = events_without(
        events_without(
            events_without(q0@, pending_event(b0.nodes@, leaf)),
            pending_event(b0.nodes@, left_arc),
        ),
        pending_event(b0.nodes@, right_arc),
    );
    let left_triple = if p >= 4 {
        Some((b0.site_of(b0.order@[p - 4]), b0.site_of(left_arc), b0.site_of(right_arc)))
    } else {
        None
    };
    let right_triple = if p + 4 < b0.order@.len() {
        Some((b0.site_of(left_arc), b0.site_of(right_arc), b0.site_of(b0.order@[p + 4])))
    } else {
        None
    };
    &&& circle_due(kernel, left_triple, left)
    &&& circle_due(kernel, right_triple, right)
    &&& b.order@ == delete_order(b0.order@, delete_cut(b0, leaf))
    &&& b.nodes@ == nodes_with(nodes_with(traced, id, left_arc, left), id_after(id, left) as usize, right_arc, right)
    &&& q@ == events_with(events_with(pending, id, left_arc, left), id_after(id, left) as usize, right_arc, right)
    &&& q.next_event_id == id_after(id_after(id, left) as usize, right)
    &&& d.halfedges@ == joined(
        d0.halfedges@,
        d0.vertices@.len() as usize,
        edge_of(b0.nodes@, pred),
        edge_of(b0.nodes@, succ),
        edge_of(b0.nodes@, parent),
        edge_of(b0.nodes@, other),
    )
    &&& d.vertices@ == d0.vertices@.push(
        Vertex { coordinates: center, incident_edge: d0.halfedges@.len() as usize, alive: true },
    )
    &&& d.faces@ == d0.faces@
}

/// What holds after an arc with an arc on either side has left the
/// beachline: the pending circle events still remove arcs with an arc on
/// either side, provided none removed the arc that left; what the
/// neighbours of the arc were, they still are.
proof fn lemma_after_delete(q: EventQueue, b0: BeachLine, b1: BeachLine, d: DCEL, leaf: usize, other: usize)
    requires
        q.wf(),
        b0.wf(),
        b1.wf(),
        events_linked(q, b0),
        edges_traced(b0, d),
        arc_free(q, leaf),
        b0.is_arc(leaf),
        2 <= b0.place@[leaf as int],
        b0.place@[leaf as int] + 2 < b0.order@.len(),
        other == delete_other(b0, leaf),
        b1.order@ == delete_order(b0.order@, delete_cut(b0, leaf)),
        b1.nodes@.len() == b0.nodes@.len(),
        b1.order@.len() == b0.order@.len() - 2,
        forall|m: int|
            0 <= m < b0.nodes@.len() && m != other ==> (#[trigger] b1.nodes@[m]).item == b0.nodes@[m].item,
        b1.nodes@[other as int].item is Internal,
        b0.nodes@[other as int].item is Internal,
        edge_of(b1.nodes@, other) == edge_of(b0.nodes@, other),
        forall|m: usize|
            #![trigger b0.live(m)]
            #![trigger b1.live(m)]
            m < b0.nodes@.len() ==> {
                &&& b1.live(m) == (b0.live(m) && m != leaf && Some(m) != b0.nodes@[leaf as int].parent)
                &&& b1.live(m) ==> b1.place@[m as int] == delete_shift(
                    b0.place@[m as int],
                    delete_cut(b0, leaf),
                )
            },
    ensures
        events_linked(q, b1),
        edges_traced(b1, d),
        ({
            let p = b0.place@[leaf as int];
            let left_arc = b0.order@[p - 2];
            let right_arc = b0.order@[p + 2];
            &&& left_arc < b0.nodes@.len()
            &&& right_arc < b0.nodes@.len()
            &&& left_arc != right_arc
            &&& left_arc != leaf
            &&& right_arc != leaf
            &&& b1.is_arc(left_arc)
            &&& b1.is_arc(right_arc)
            &&& b1.place@[left_arc as int] == p - 2
            &&& b1.place@[right_arc as int] == p
            &&& b1.order@[p - 2] == left_arc
            &&& b1.order@[p] == right_arc
            &&& p >= 4 ==> b1.order@[p - 4] == b0.order@[p - 4] && b0.nodes@[b0.order@[p - 4] as int].item is Leaf
                && b0.order@[p - 4] != other
            &&& p + 4 < b0.order@.len() ==> b1.order@[p + 2] == b0.order@[p + 4] && b0.nodes@[b0.order@[p
                + 4] as int].item is Leaf && b0.order@[p + 4] != other
            &&& b0.nodes@[b0.order@[p - 1] as int].item is Internal
            &&& b0.nodes@[b0.order@[p + 1] as int].item is Internal
            &&& b0.order@[p - 1] < b0.nodes@.len()
            &&& b0.order@[p + 1] < b0.nodes@.len()
            &&& edge_of(b0.nodes@, b0.order@[p - 1]) < d.halfedges@.len()
            &&& edge_of(b0.nodes@, b0.order@[p + 1]) < d.halfedges@.len()
            &&& other < b0.nodes@.len()
            &&& b1.live(other)
            &&& left_arc != other
            &&& right_arc != other
            &&& leaf != other
        }),
{
    let p = b0.place@[leaf as int];
    let cut = delete_cut(b0, leaf);
    lemma_inner_arc(b0, leaf);
    b0.lemma_at_live(p - 4);
    b0.lemma_at_live(p - 2);
    b0.lemma_at_live(p - 1);
    b0.lemma_at_live(p + 1);
    b0.lemma_at_live(p + 2);
    b0.lemma_at_live(p + 4);
    b0.lemma_node(leaf);
    let pred = b0.order@[p - 1];
    let succ = b0.order@[p + 1];
    assert(edge_traced(b0, d, pred));
    assert(edge_traced(b0, d, succ));
    assert(b1.order@[p - 2] == b0.order@[p - 2]);
    assert(b1.order@[p] == b0.order@[p + 2]);
    b1.lemma_at_live(p - 2);
    b1.lemma_at_live(p);
    if p >= 4 {
        assert(b1.order@[p - 4] == b0.order@[p - 4]);
    }
    if p + 4 < b0.order@.len() {
        assert(b1.order@[p + 2] == b0.order@[p + 4]);
    }
    assert forall|id: usize| q@.dom().contains(id) implies #[trigger] arc_event_ok(q, b1, id) by {
        assert(arc_event_ok(q, b0, id));
        assert(not_for(q, id, leaf));
        if let VoronoiEvent::Circle(_, _, a) = q@[id] {
            assert(b0.live(a));
            b0.lemma_node(a);
            assert(b1.live(a));
            assert(b1.nodes@[a as int].item == b0.nodes@[a as int].item);
        }
    }
    assert forall|m: usize| m < b1.nodes@.len() implies #[trigger] edge_traced(b1, d, m) by {
        assert(edge_traced(b0, d, m));
    }
}

/// Handles the event of the sweep line reaching the far side of the
/// circle through the sites of the arc in slot `leaf` and of its two
/// neighbours.
pub fn handle_circle_event<K: Kernel>(
    kernel: &K,
    leaf: usize,
    circle_center: Point,
    queue: &mut EventQueue,
    beachline: &mut BeachLine,
    dcel: &mut DCEL,
)
    requires
        sweep_wf(*old(queue), *old(beachline), *old(dcel)),
        arc_free(*old(queue), leaf),
        apart(*old(beachline), *old(dcel), leaf),
        old(beachline).is_arc(leaf),
        2 <= old(beachline).place@[leaf as int],
        old(beachline).place@[leaf as int] + 2 < old(beachline).order@.len(),
        old(queue).next_event_id + 2 <= usize::MAX,
        old(dcel).halfedges@.len() + 2 < NIL,
        old(dcel).vertices@.len() + 1 < NIL,
    ensures
        sweep_wf(*final(queue), *final(beachline), *final(dcel)),
        exists|left: Option<(Point, u64)>, right: Option<(Point, u64)>| #[trigger]
            circle_handled(
                kernel,
                leaf,
                circle_center,
                *old(queue),
                *old(beachline),
                *old(dcel),
                *final(queue),
                *final(beachline),
                *final(dcel),
                left,
                right,
            ),
{
    let ghost q0 = *queue;
    let ghost b0 = *beachline;
    let ghost d0 = *dcel;
    let ghost p = b0.place@[leaf as int];
    let left_neighbor = beachline.get_left_arc(Some(leaf)).unwrap();
    let right_neighbor = beachline.get_right_arc(Some(leaf)).unwrap();
    let (pred, succ, parent, other) = delete_leaf(leaf, beachline);
    let ghost b1 = *beachline;
    proof {
        lemma_after_delete(q0, b0, b1, d0, leaf, other);
    }

    // removing site events involving disappearing arc
    remove_circle_event(leaf, queue, beachline);
    remove_circle_event(left_neighbor, queue, beachline);
    remove_circle_event(right_neighbor, queue, beachline);
    let ghost q2 = *queue;
    let ghost b2 = *beachline;
    proof {
        assert(b2.nodes@ =~= with_event(
            with_event(with_event(delete_nodes(b0, leaf), leaf, None), left_neighbor, None),
            right_neighbor,
            None,
        ));
        assert(edge_traced(b1, d0, other));
    }

    let pred_edge = beachline.get_edge(pred).unwrap();
    let succ_edge = beachline.get_edge(succ).unwrap();
    let parent_edge = beachline.get_edge(parent).unwrap();
    let other_edge = beachline.get_edge(other).unwrap();

    let (twin1, twin2) = dcel.join_at(circle_center, pred_edge, succ_edge, parent_edge, other_edge);
    beachline.set_edge(other, twin2);
    let ghost b3 = *beachline;
    proof {
        assert(b3.nodes@ =~= with_edge(b2.nodes@, other, twin2));
        lemma_owned_after_delete(b0, b1, d0, *dcel, leaf, other);
        lemma_after_retrace(q2, b1, b2, b3, d0, *dcel, leaf, left_neighbor, right_neighbor, other);
        assert forall|m: usize| m < b0.nodes@.len() implies b3.live(m) == (b0.live(m) && m != leaf && Some(m)
            != b0.nodes@[leaf as int].parent) by {
            assert(b3.live(m) == b1.live(m));
        }
        lemma_links_after_circle(b0, b3, d0, *dcel, leaf, other);
        lemma_apart_after_circle(q0, q2, b0, b3, d0, *dcel, leaf, other);
        lemma_apart_neighbours(b0, b3, d0, *dcel, leaf, other);
    }

    let left_triple = beachline.get_centered_triple(left_neighbor);
    let left = check_circle_event(kernel, left_neighbor, left_triple, queue, beachline);
    let ghost q4 = *queue;
    let ghost b4 = *beachline;
    let right_triple = beachline.get_centered_triple(right_neighbor);
    let right = check_circle_event(kernel, right_neighbor, right_triple, queue, beachline);
    proof {
        lemma_traced_same_order(b3, b4, *dcel);
        lemma_traced_same_order(b4, *beachline, *dcel);
        lemma_links_same_order(b3, b4, *dcel);
        lemma_links_same_order(b4, *beachline, *dcel);
        assert forall|id: usize| q4@.dom().contains(id) implies (q2@.dom().contains(id) && q2@[id] == q4@[id])
            || #[trigger] event_apart(q4, b4, *dcel, id) by {
            if !(q2@.dom().contains(id) && q2@[id] == q4@[id]) {
                assert(apart(b3, *dcel, left_neighbor));
                assert(apart(b4, *dcel, left_neighbor));
            }
        }
        lemma_apart_kept(q2, b3, *dcel, q4, b4, *dcel);
        assert forall|id: usize| queue@.dom().contains(id) implies (q4@.dom().contains(id) && q4@[id]
            == queue@[id]) || #[trigger] event_apart(*queue, *beachline, *dcel, id) by {
            if !(q4@.dom().contains(id) && q4@[id] == queue@[id]) {
                assert(apart(b3, *dcel, right_neighbor));
                assert(apart(*beachline, *dcel, right_neighbor));
            }
        }
        lemma_apart_kept(q4, b4, *dcel, *queue, *beachline, *dcel);
        assert(circle_handled(
            kernel,
            leaf,
            circle_center,
            q0,
            b0,
            d0,
            *queue,
            *beachline,
            *dcel,
            left@,
            right@,
        ));
    }
}

/// After an arc has left and a vertex has joined the boundaries on either
/// side of it, every half-edge that was there before starts at a vertex or is
/// traced by a breakpoint other than the one that stays next to the vertex.
proof fn lemma_owned_after_delete(b0: BeachLine, b1: BeachLine, d0: DCEL, d: DCEL, leaf: usize, other: usize)
    requires
        b0.wf(),
        b1.wf(),
        edges_owned(b0, d0),
        b0.is_arc(leaf),
        2 <= b0.place@[leaf as int],
        b0.place@[leaf as int] + 2 < b0.order@.len(),
        other == delete_other(b0, leaf),
        b1.nodes@.len() == b0.nodes@.len(),
        forall|m: int|
            0 <= m < b0.nodes@.len() && m != other ==> (#[trigger] b1.nodes@[m]).item == b0.nodes@[m].item,
        forall|m: usize|
            #![trigger b0.live(m)]
            #![trigger b1.live(m)]
            m < b0.nodes@.len() ==> b1.live(m) == (b0.live(m) && m != leaf && Some(m) != b0.nodes@[leaf as int].parent),
        d.vertices@.len() == d0.vertices@.len() + 1,
        d.halfedges@.len() == d0.halfedges@.len() + 2,
        d0.vertices@.len() + 1 < NIL,
        forall|e: int|
            0 <= e < d0.halfedges@.len() ==> (#[trigger] d.halfedges@[e]).origin == if e == edge_of(
                b0.nodes@,
                b0.nodes@[leaf as int].parent->0,
            ) || e == edge_of(b0.nodes@, other) {
                d0.vertices@.len() as usize
            } else {
                d0.halfedges@[e].origin
            },
    ensures
        forall|e: int|
            0 <= e < d0.halfedges@.len() ==> (#[trigger] d.halfedges@[e]).origin == d0.halfedges@[e].origin
                || d.halfedges@[e].origin == d0.vertices@.len(),
        forall|e: int|
            0 <= e < d0.halfedges@.len() ==> d0.halfedges@[e].origin < d0.vertices@.len() || (
            #[trigger] d.halfedges@[e]).origin == d0.vertices@.len() || exists|m: usize|
                m != other && #[trigger] traces(b1, m, e),
{
    lemma_inner_arc(b0, leaf);
    let parent = b0.nodes@[leaf as int].parent->0;
    assert forall|e: int| 0 <= e < d0.halfedges@.len() implies d0.halfedges@[e].origin < d0.vertices@.len() || (
    #[trigger] d.halfedges@[e]).origin == d0.vertices@.len() || exists|m: usize|
        m != other && #[trigger] traces(b1, m, e) by {
        assert(edge_owned(b0, d0, e));
        if !(d0.halfedges@[e].origin < d0.vertices@.len()) {
            let m = choose|m: usize| #[trigger] traces(b0, m, e);
            if m != parent && m != other {
                assert(m != leaf);
                assert(b1.live(m));
                assert(b1.nodes@[m as int].item == b0.nodes@[m as int].item);
                assert(traces(b1, m, e));
            }
        }
    }
}

/// After a circle event the pending circle events are apart as before.
#[verifier::spinoff_prover]
#[verifier::rlimit(40)]
proof fn lemma_apart_after_circle(
    q0: EventQueue,
    q: EventQueue,
    b0: BeachLine,
    b3: BeachLine,
    d0: DCEL,
    d: DCEL,
    leaf: usize,
    other: usize,
)
    requires
        b0.wf(),
        b3.wf(),
        d0.wf(),
        events_apart(q0, b0, d0),
        events_linked(q, b3),
        edges_traced(b0, d0),
        forall|id: usize| q@.dom().contains(id) ==> q0@.dom().contains(id) && #[trigger] q@[id] == q0@[id],
        b0.is_arc(leaf),
        2 <= b0.place@[leaf as int],
        b0.place@[leaf as int] + 2 < b0.order@.len(),
        other == delete_other(b0, leaf),
        d0.halfedges@.len() <= d.halfedges@.len(),
        forall|e: int| 0 <= e < d0.halfedges@.len() ==> (#[trigger] d.halfedges@[e]).twin == d0.halfedges@[e].twin,
        b3.nodes@.len() == b0.nodes@.len(),
        b3.order@ == delete_order(b0.order@, delete_cut(b0, leaf)),
        b3.order@.len() == b0.order@.len() - 2,
        forall|m: usize|
            #![trigger b0.live(m)]
            #![trigger b3.live(m)]
            m < b0.nodes@.len() ==> {
                &&& b3.live(m) == (b0.live(m) && m != leaf && Some(m) != b0.nodes@[leaf as int].parent)
                &&& b3.live(m) ==> b3.place@[m as int] == delete_shift(b0.place@[m as int], delete_cut(b0, leaf))
            },
        forall|m: int|
            0 <= m < b0.nodes@.len() && m != other && (#[trigger] b0.nodes@[m]).item is Internal
                ==> b3.nodes@[m].item == b0.nodes@[m].item,
        pending_event(b3.nodes@, b0.order@[b0.place@[leaf as int] - 2]) is None,
        pending_event(b3.nodes@, b0.order@[b0.place@[leaf as int] + 2]) is None,
    ensures
        events_apart(q, b3, d),
{
    let p = b0.place@[leaf as int];
    let cut = delete_cut(b0, leaf);
    lemma_inner_arc(b0, leaf);
    b0.lemma_node(leaf);
    b0.lemma_at_live(p - 2);
    b0.lemma_at_live(p - 1);
    b0.lemma_at_live(p + 1);
    b0.lemma_at_live(p + 2);
    let left_arc = b0.order@[p - 2];
    let right_arc = b0.order@[p + 2];
    assert forall|id: usize| q@.dom().contains(id) implies #[trigger] event_apart(q, b3, d, id) by {
        assert(event_apart(q0, b0, d0, id));
        assert(arc_event_ok(q, b3, id));
        assert(q@[id] == q0@[id]);
        if let VoronoiEvent::Circle(_, _, a) = q@[id] {
            lemma_apart_arc_kept(b0, b3, d0, d, leaf, other, a);
        }
    }
}

/// After a circle event the breakpoints on either side of an arc that was
/// not next to the arc that left are the breakpoints that they were, and
/// trace what they traced.
#[verifier::spinoff_prover]
#[verifier::rlimit(40)]
proof fn lemma_apart_arc_kept(b0: BeachLine, b3: BeachLine, d0: DCEL, d: DCEL, leaf: usize, other: usize, a: usize)
    requires
        b0.wf(),
        b3.wf(),
        d0.wf(),
        edges_traced(b0, d0),
        b0.is_arc(leaf),
        2 <= b0.place@[leaf as int],
        b0.place@[leaf as int] + 2 < b0.order@.len(),
        other == delete_other(b0, leaf),
        d0.halfedges@.len() <= d.halfedges@.len(),
        forall|e: int| 0 <= e < d0.halfedges@.len() ==> (#[trigger] d.halfedges@[e]).twin == d0.halfedges@[e].twin,
        b3.nodes@.len() == b0.nodes@.len(),
        b3.order@ == delete_order(b0.order@, delete_cut(b0, leaf)),
        b3.order@.len() == b0.order@.len() - 2,
        forall|m: usize|
            #![trigger b0.live(m)]
            #![trigger b3.live(m)]
            m < b0.nodes@.len() ==> {
                &&& b3.live(m) == (b0.live(m) && m != leaf && Some(m) != b0.nodes@[leaf as int].parent)
                &&& b3.live(m) ==> b3.place@[m as int] == delete_shift(b0.place@[m as int], delete_cut(b0, leaf))
            },
        forall|m: int|
            0 <= m < b0.nodes@.len() && m != other && (#[trigger] b0.nodes@[m]).item is Internal
                ==> b3.nodes@[m].item == b0.nodes@[m].item,
        b3.is_arc(a),
        2 <= b3.place@[a as int],
        b3.place@[a as int] + 2 < b3.order@.len(),
        a != b0.order@[b0.place@[leaf as int] - 2],
        a != b0.order@[b0.place@[leaf as int] + 2],
        apart(b0, d0, a),
    ensures
        apart(b3, d, a),
{
    let p = b0.place@[leaf as int];
    let cut = delete_cut(b0, leaf);
    lemma_inner_arc(b0, leaf);
    b0.lemma_node(leaf);
    b0.lemma_at_live(p - 2);
    b0.lemma_at_live(p + 2);
    b0.lemma_at_live(p - 1);
    b0.lemma_at_live(p + 1);
    assert(b3.live(a));
    assert(b0.live(a));
    b3.lemma_node(a);
    b0.lemma_node(a);
    let pa = b0.place@[a as int];
    let pb = b3.place@[a as int];
    assert(b0.order@[pa] == a);
    assert(pa != p && pa != p - 2 && pa != p + 2);
    assert(pa % 2 == 0 && p % 2 == 0);
    b0.lemma_at_live(pa - 1);
    b0.lemma_at_live(pa + 1);
    let left = b0.order@[pa - 1];
    let right = b0.order@[pa + 1];
    assert(edge_traced(b0, d0, left));
    assert(edge_traced(b0, d0, right));
    assert(pb == delete_shift(pa, cut));
    assert(cut == p || cut == p - 1);
    if pa < p {
        assert(pa + 1 < cut);
        assert(b3.order@[pb - 1] == b0.order@[pa - 1]);
        assert(b3.order@[pb + 1] == b0.order@[pa + 1]);
    } else {
        assert(pa - 1 > cut + 1);
        assert(b3.order@[pb - 1] == b0.order@[pa - 1]);
        assert(b3.order@[pb + 1] == b0.order@[pa + 1]);
    }
    assert(b0.place@[other as int] == p - 1 || b0.place@[other as int] == p + 1);
    assert(left != other && right != other);
    assert(b3.nodes@[left as int].item == b0.nodes@[left as int].item);
    assert(b3.nodes@[right as int].item == b0.nodes@[right as int].item);
}

/// After a circle event the breakpoints on either side of the two arcs
/// that were next to the arc that left do not trace the two half-edges of
/// one pair: the breakpoint between those two arcs traces a new half-edge.
#[verifier::spinoff_prover]
#[verifier::rlimit(40)]
proof fn lemma_apart_neighbours(b0: BeachLine, b3: BeachLine, d0: DCEL, d: DCEL, leaf: usize, other: usize)
    requires
        b0.wf(),
        b3.wf(),
        d0.wf(),
        edges_traced(b0, d0),
        b0.is_arc(leaf),
        2 <= b0.place@[leaf as int],
        b0.place@[leaf as int] + 2 < b0.order@.len(),
        other == delete_other(b0, leaf),
        d0.halfedges@.len() + 2 < NIL,
        d.halfedges@.len() == d0.halfedges@.len() + 2,
        forall|e: int| 0 <= e < d0.halfedges@.len() ==> (#[trigger] d.halfedges@[e]).twin == d0.halfedges@[e].twin,
        d.halfedges@[d0.halfedges@.len() as int + 1].twin == d0.halfedges@.len(),
        b3.nodes@.len() == b0.nodes@.len(),
        b3.order@ == delete_order(b0.order@, delete_cut(b0, leaf)),
        b3.order@.len() == b0.order@.len() - 2,
        forall|m: usize|
            #![trigger b0.live(m)]
            #![trigger b3.live(m)]
            m < b0.nodes@.len() ==> {
                &&& b3.live(m) == (b0.live(m) && m != leaf && Some(m) != b0.nodes@[leaf as int].parent)
                &&& b3.live(m) ==> b3.place@[m as int] == delete_shift(b0.place@[m as int], delete_cut(b0, leaf))
            },
        forall|m: int|
            0 <= m < b0.nodes@.len() && m != other && (#[trigger] b0.nodes@[m]).item is Internal
                ==> b3.nodes@[m].item == b0.nodes@[m].item,
        b3.nodes@[other as int].item is Internal,
        edge_of(b3.nodes@, other) == d0.halfedges@.len() + 1,
    ensures
        b0.place@[leaf as int] >= 4 ==> apart(b3, d, b0.order@[b0.place@[leaf as int] - 2]),
        b0.place@[leaf as int] + 4 < b0.order@.len() ==> apart(b3, d, b0.order@[b0.place@[leaf as int] + 2]),
{
    let p = b0.place@[leaf as int];
    let cut = delete_cut(b0, leaf);
    let h = d0.halfedges@.len() as int;
    lemma_inner_arc(b0, leaf);
    b0.lemma_node(leaf);
    b0.lemma_at_live(p - 3);
    b0.lemma_at_live(p - 2);
    b0.lemma_at_live(p - 1);
    b0.lemma_at_live(p + 1);
    b0.lemma_at_live(p + 2);
    b0.lemma_at_live(p + 3);
    let left_arc = b0.order@[p - 2];
    let right_arc = b0.order@[p + 2];
    assert(cut == p || cut == p - 1);
    assert(b0.place@[other as int] == p - 1 || b0.place@[other as int] == p + 1);
    assert(b3.order@[p - 2] == left_arc);
    assert(b3.order@[p] == right_arc);
    assert(b3.order@[p - 1] == other);
    b3.lemma_at_live(p - 2);
    b3.lemma_at_live(p);
    if p >= 4 {
        let z = b0.order@[p - 3];
        assert(b3.order@[p - 3] == z);
        assert(edge_traced(b0, d0, z));
        assert(z != other);
        assert(b3.nodes@[z as int].item == b0.nodes@[z as int].item);
        assert(twin_ok(d0.halfedges@, edge_of(b0.nodes@, z) as int));
    }
    if p + 4 < b0.order@.len() {
        let z = b0.order@[p + 3];
        assert(b3.order@[p + 1] == z);
        assert(edge_traced(b0, d0, z));
        assert(z != other);
        assert(b3.nodes@[z as int].item == b0.nodes@[z as int].item);
    }
}

/// After a circle event the links are open as before: the twins of the
/// two half-edges that met at the vertex have a `next`, the breakpoint that
/// stays traces the second half-edge of the new pair, and the first has no
/// `next` yet.
proof fn lemma_links_after_circle(b0: BeachLine, b3: BeachLine, d0: DCEL, d: DCEL, leaf: usize, other: usize)
    requires
        b0.wf(),
        b3.wf(),
        d0.wf(),
        links_open(b0, d0),
        b0.is_arc(leaf),
        2 <= b0.place@[leaf as int],
        b0.place@[leaf as int] + 2 < b0.order@.len(),
        other == delete_other(b0, leaf),
        d0.halfedges@.len() + 2 < NIL,
        b3.nodes@.len() == b0.nodes@.len(),
        forall|m: usize|
            #![trigger b0.live(m)]
            #![trigger b3.live(m)]
            m < b0.nodes@.len() ==> b3.live(m) == (b0.live(m) && m != leaf && Some(m) != b0.nodes@[leaf as int].parent),
        forall|m: int|
            0 <= m < b0.nodes@.len() && m != other ==> (#[trigger] b3.nodes@[m]).item is Internal == (
            b0.nodes@[m].item is Internal),
        forall|m: int|
            0 <= m < b0.nodes@.len() && m != other && (#[trigger] b0.nodes@[m]).item is Internal
                ==> b3.nodes@[m].item == b0.nodes@[m].item,
        b3.nodes@[other as int].item is Internal,
        edge_of(b3.nodes@, other) == d0.halfedges@.len() + 1,
        apart(b0, d0, leaf),
        d0.vertices@.len() + 1 < NIL,
        d.vertices@.len() == d0.vertices@.len() + 1,
        forall|v: int| 0 <= v < d0.vertices@.len() ==> (#[trigger] d.vertices@[v]) == d0.vertices@[v],
        d.vertices@[d0.vertices@.len() as int].incident_edge == d0.halfedges@.len(),
        d.halfedges@ == joined(
            d0.halfedges@,
            d0.vertices@.len() as usize,
            edge_of(b0.nodes@, b0.order@[b0.place@[leaf as int] - 1]),
            edge_of(b0.nodes@, b0.order@[b0.place@[leaf as int] + 1]),
            edge_of(b0.nodes@, b0.nodes@[leaf as int].parent->0),
            edge_of(b0.nodes@, other),
        ),
    ensures
        links_open(b3, d),
{
    let p = b0.place@[leaf as int];
    let he = d0.halfedges@;
    let n = he.len() as int;
    let t = n;
    lemma_inner_arc(b0, leaf);
    b0.lemma_at_live(p - 1);
    b0.lemma_at_live(p + 1);
    let pred = b0.order@[p - 1];
    let succ = b0.order@[p + 1];
    let parent = b0.nodes@[leaf as int].parent->0;
    let (back, tracer) = choose|back: Seq<int>, tracer: Seq<int>| #[trigger] open_with(b0, d0, back, tracer);
    assert(node_traced(b0, d0, tracer, pred));
    assert(node_traced(b0, d0, tracer, succ));
    let pe = edge_of(b0.nodes@, pred);
    let se = edge_of(b0.nodes@, succ);
    assert(pe != se);
    assert(twin_ok(he, pe as int));
    assert(twin_ok(he, se as int));
    let pet = he[pe as int].twin;
    let set = he[se as int].twin;
    assert(twin_ok(he, pet as int));
    assert(twin_ok(he, set as int));
    assert(pet != set);
    lemma_joined_links(
        he,
        d0.vertices@.len() as usize,
        pe,
        se,
        edge_of(b0.nodes@, parent),
        edge_of(b0.nodes@, other),
    );
    assert(link_ok(he, back, tracer, pe as int));
    assert(link_ok(he, back, tracer, se as int));
    assert(link_ok(he, back, tracer, pet as int));
    assert(link_ok(he, back, tracer, set as int));
    let grown = Seq::new(
        (n + 2) as nat,
        |x: int|
            if x == se {
                pet as int
            } else if x == t {
                set as int
            } else if x == pe {
                t + 1
            } else if x == t + 1 {
                -1
            } else {
                back[x]
            },
    );
    let marked = Seq::new(
        (n + 2) as nat,
        |e: int|
            if e == pe || e == se || e == t {
                -1
            } else if e == t + 1 {
                other as int
            } else {
                tracer[e]
            },
    );
    let ah = d.halfedges@;
    assert forall|x: int| 0 <= x < ah.len() implies #[trigger] link_ok(ah, grown, marked, x) by {
        if x < n {
            assert(link_ok(he, back, tracer, x));
            assert(twin_ok(he, x));
            let y = he[x].next;
            if y != NIL {
                assert(link_ok(he, back, tracer, y as int));
            }
            if back[x] != -1 {
                assert(link_ok(he, back, tracer, back[x]));
            }
        }
    }
    assert forall|e: int| 0 <= e < ah.len() implies #[trigger] tracer_ok(b3, marked, e) by {
        if e < n && e != pe && e != se {
            assert(tracer_ok(b0, tracer, e));
            if tracer[e] != -1 {
                let m = tracer[e] as usize;
                assert(traces(b0, m, e));
                assert(m != pred && m != succ);
                assert(m != leaf);
                assert(b3.live(m));
                assert(b3.nodes@[m as int].item == b0.nodes@[m as int].item);
            }
        } else if e == t + 1 {
            assert(b0.live(other));
            assert(b3.live(other));
            assert(traces(b3, other, e));
        }
    }
    assert forall|m: usize| m < b3.nodes@.len() implies #[trigger] node_traced(b3, d, marked, m) by {
        if b3.live(m) && b3.nodes@[m as int].item is Internal {
            if m != other {
                assert(node_traced(b0, d0, tracer, m));
                assert(b0.live(m));
                assert(b3.nodes@[m as int].item == b0.nodes@[m as int].item);
                let e = edge_of(b0.nodes@, m);
                assert(tracer[e as int] == m);
                assert(m != pred && m != succ);
            }
        }
    }
    let nv = d0.vertices@.len() as int;
    let pae = edge_of(b0.nodes@, parent);
    let oe = edge_of(b0.nodes@, other);
    assert((pae == pe && oe == se) || (pae == se && oe == pe));
    assert(origin_ok(he, tracer, pe as int));
    assert(origin_ok(he, tracer, se as int));
    assert(origin_ok(he, tracer, pet as int));
    assert(origin_ok(he, tracer, set as int));
    assert(links_ok(he, pet as int, nv, d0.faces@.len() as int));
    assert(links_ok(he, set as int, nv, d0.faces@.len() as int));
    assert(pet != se);
    assert(set != pe);
    assert forall|x: int| 0 <= x < ah.len() implies #[trigger] origin_ok(ah, marked, x) by {
        if x < n {
            assert(origin_ok(he, tracer, x));
            assert(link_ok(he, back, tracer, x));
            assert(twin_ok(he, x));
            assert(links_ok(he, x, nv, d0.faces@.len() as int));
            let w = he[x].twin;
            assert(origin_ok(he, tracer, w as int));
            assert(links_ok(he, w as int, nv, d0.faces@.len() as int));
            assert(link_ok(he, back, tracer, w as int));
            let y = he[x].next;
            if y != NIL {
                assert(origin_ok(he, tracer, y as int));
                assert(link_ok(he, back, tracer, y as int));
            }
        }
    }
    assert forall|v: int| 0 <= v < d.vertices@.len() implies #[trigger] vertex_ok(ah, d.vertices@, v) by {
        if v < nv {
            assert(vertex_ok(he, d0.vertices@, v));
            let s = d0.vertices@[v].incident_edge as int;
            assert(twin_ok(he, s));
            let w = he[s].twin as int;
            assert(twin_ok(he, w));
            assert(origin_ok(he, tracer, s));
            assert(origin_ok(he, tracer, w));
            assert(link_ok(he, back, tracer, s));
            assert(link_ok(he, back, tracer, w));
            assert(links_ok(he, w, nv, d0.faces@.len() as int));
        }
    }
    assert(open_with(b3, d, grown, marked));
}

/// What holds after the pending events round an arc that left have been
/// cancelled and the breakpoint that stays has been given the new half-edge
/// to trace.
proof fn lemma_after_retrace(
    q: EventQueue,
    b1: BeachLine,
    b2: BeachLine,
    b3: BeachLine,
    d0: DCEL,
    d: DCEL,
    leaf: usize,
    left_arc: usize,
    right_arc: usize,
    other: usize,
)
    requires
        b1.wf(),
        b2.wf(),
        b3.wf(),
        events_linked(q, b2),
        edges_traced(b1, d0),
        d.halfedges@.len() == d0.halfedges@.len() + 2,
        d.vertices@.len() == d0.vertices@.len() + 1,
        d0.halfedges@.len() + 2 < NIL,
        b1.live(other),
        forall|e: int|
            0 <= e < d0.halfedges@.len() ==> (#[trigger] d.halfedges@[e]).origin == d0.halfedges@[e].origin
                || d.halfedges@[e].origin == d0.vertices@.len(),
        d.halfedges@[d0.halfedges@.len() as int].origin == d0.vertices@.len(),
        forall|e: int|
            0 <= e < d0.halfedges@.len() ==> d0.halfedges@[e].origin < d0.vertices@.len() || (
            #[trigger] d.halfedges@[e]).origin == d0.vertices@.len() || exists|m: usize|
                m != other && #[trigger] traces(b1, m, e),
        same_order(b2, b1),
        same_order(b3, b2),
        leaf < b1.nodes@.len(),
        left_arc < b1.nodes@.len(),
        right_arc < b1.nodes@.len(),
        other < b1.nodes@.len(),
        b1.nodes@[other as int].item is Internal,
        b1.is_arc(left_arc),
        b1.is_arc(right_arc),
        b2.nodes@ == with_event(with_event(with_event(b1.nodes@, leaf, None), left_arc, None), right_arc, None),
        b3.nodes@ == with_edge(b2.nodes@, other, (d0.halfedges@.len() + 1) as usize),
    ensures
        events_linked(q, b3),
        edges_traced(b3, d),
        edges_owned(b3, d),
        b3.is_arc(left_arc),
        b3.is_arc(right_arc),
        pending_event(b3.nodes@, left_arc) is None,
        pending_event(b3.nodes@, right_arc) is None,
        b3.site_of(left_arc) == b1.site_of(left_arc),
        b3.site_of(right_arc) == b1.site_of(right_arc),
        forall|m: usize|
            m < b1.nodes@.len() && (#[trigger] b1.nodes@[m as int]).item is Leaf ==> b3.nodes@[m as int].item is Leaf
                && b3.site_of(m) == b1.site_of(m),
{
    assert forall|m: usize| m < b1.nodes@.len() && (#[trigger] b1.nodes@[m as int]).item is Leaf implies b3.nodes@[m as int].item is Leaf
        && b3.site_of(m) == b1.site_of(m) by {}
    assert forall|id: usize| q@.dom().contains(id) implies #[trigger] arc_event_ok(q, b3, id) by {
        assert(arc_event_ok(q, b2, id));
        if let VoronoiEvent::Circle(_, _, a) = q@[id] {
            assert(b2.live(a));
            assert(b3.live(a));
        }
    }
    assert forall|m: usize| m < b3.nodes@.len() implies #[trigger] edge_traced(b3, d, m) by {
        assert(edge_traced(b1, d0, m));
        assert(b3.live(m) == b1.live(m));
    }
    let h = d0.halfedges@.len() as int;
    assert forall|e: int| 0 <= e < d.halfedges@.len() implies #[trigger] edge_owned(b3, d, e) by {
        if e < h {
            if !(d.halfedges@[e].origin < d.vertices@.len()) {
                let m = choose|m: usize| m != other && #[trigger] traces(b1, m, e);
                assert(b3.live(m) == b1.live(m));
                assert(b3.nodes@[m as int].item == b1.nodes@[m as int].item);
                assert(traces(b3, m, e));
            }
        } else if e == h + 1 {
            assert(b3.live(other) == b1.live(other));
            assert(traces(b3, other, e));
        }
    }
}

/// The half-edges after the unfinished half-edge `edge` has been given the
/// vertex `v` to start at: its twin leads into it.
pub open spec fn edge_extended(he: Seq<HalfEdge>, v: usize, edge: usize) -> Seq<HalfEdge> {
    let s1 = he.update(edge as int, HalfEdge { origin: v, ..he[edge as int] });
    let twin = s1[edge as int].twin;
    s1.update(twin as int, HalfEdge { next: edge, ..s1[twin as int] })
}

/// Is `pt` the point that the kernel gave for the breakpoint between the
/// arcs of `left` and `right` far beyond the rectangle?
pub open spec fn far_point<K: Kernel>(kernel: &K, left: Point, right: Point, far: (u64, u64), pt: Point) -> bool {
    exists|x: u64, y: u64|
        {
            &&& #[trigger] call_ensures(K::get_breakpoint_x, (kernel, left, right, far.0), x)
            &&& #[trigger] call_ensures(K::get_breakpoint_y, (kernel, left, right, far.1), y)
            &&& pt == Point { x, y }
        }
}

/// The half-edges after the first `k` breakpoints of the beachline, left
/// to right, have each been given a vertex to start at, the first of them
/// the vertex `v`.
pub open spec fn edges_extended(b: BeachLine, he: Seq<HalfEdge>, v: nat, k: nat) -> Seq<HalfEdge>
    decreases k,
{
    if k == 0 {
        he
    } else {
        edge_extended(
            edges_extended(b, he, v, (k - 1) as nat),
            (v + k - 1) as usize,
            edge_of(b.nodes@, b.order@[2 * k - 1]),
        )
    }
}

/// The vertices that the breakpoints of the beachline are given, left to
/// right, at the points `far`.
pub open spec fn far_vertices(b: BeachLine, far: Seq<Point>) -> Seq<Vertex> {
    Seq::new(
        far.len(),
        |k: int|
            Vertex { coordinates: far[k], incident_edge: edge_of(b.nodes@, b.order@[2 * k + 1]), alive: true },
    )
}

/// Is each of the points `pts` what the kernel gave for the breakpoint of
/// the beachline at its place, counted left to right, far beyond the
/// rectangle?
pub open spec fn far_points<K: Kernel>(kernel: &K, b: BeachLine, far: (u64, u64), pts: Seq<Point>) -> bool {
    forall|k: int|
        0 <= k < pts.len() ==> far_point(
            kernel,
            b.nodes@[b.order@[2 * k + 1] as int].item->Internal_0.left_site,
            b.nodes@[b.order@[2 * k + 1] as int].item->Internal_0.right_site,
            far,
            #[trigger] pts[k],
        )
}

/// Is `after` what leading the unfinished half-edges out makes of
/// `before`: each breakpoint of the beachline, left to right, gets a vertex
/// at the point that the kernel gave for it far beyond the rectangle, and
/// the half-edge that it traces starts there?
pub open spec fn edges_led_out<K: Kernel>(
    kernel: &K,
    bounds: Bounds,
    b: BeachLine,
    before: DCEL,
    after: DCEL,
) -> bool {
    &&& after.faces@ == before.faces@
    &&& exists|far: (u64, u64), pts: Seq<Point>|
        {
            &&& #[trigger] call_ensures(K::far_directrix, (kernel, bounds), far)
            &&& pts.len() == b.order@.len() / 2
            &&& #[trigger] far_points(kernel, b, far, pts)
            &&& after.halfedges@ == edges_extended(b, before.halfedges@, before.vertices@.len(), pts.len())
            &&& after.vertices@ == before.vertices@ + far_vertices(b, pts)
        }
}

/// Gives each half-edge that a breakpoint of the beachline is still
/// tracing a vertex far outside the bounding rectangle to start at.
pub fn extend_edges<K: Kernel>(kernel: &K, beachline: &BeachLine, dcel: &mut DCEL, bounds: Bounds)
    requires
        beachline.wf(),
        beachline.order@.len() > 0,
        old(dcel).wf(),
        edges_traced(*beachline, *old(dcel)),
        edges_owned(*beachline, *old(dcel)),
        links_open(*beachline, *old(dcel)),
        old(dcel).vertices@.len() + beachline.order@.len() < NIL,
    ensures
        final(dcel).wf(),
        final(dcel).origins_set(),
        final(dcel).next_bijective(),
        final(dcel).faces@ == old(dcel).faces@,
        final(dcel).halfedges@.len() == old(dcel).halfedges@.len(),
        final(dcel).vertices@.len() == old(dcel).vertices@.len() + beachline.order@.len() / 2,
        edges_led_out(kernel, bounds, *beachline, *old(dcel), *final(dcel)),
        old(dcel).fans() ==> final(dcel).fans(),
        old(dcel).vertices_live() ==> final(dcel).vertices_live(),
{
    let far = kernel.far_directrix(bounds);
    let mut current_node = beachline.tree_minimum(beachline.root);
    let ghost he0 = dcel.halfedges@;
    let ghost v0 = dcel.vertices@;
    let ghost mut pts: Seq<Point> = Seq::empty();
    let ghost (mut back, mut tracer) = choose|back: Seq<int>, tracer: Seq<int>| #[trigger]
        open_with(*beachline, *dcel, back, tracer);
    let ghost tracer0 = tracer;
    proof {
        assert forall|e: int| 0 <= e < dcel.halfedges@.len() implies #[trigger] tracer_from(
            *beachline,
            tracer,
            e,
            0,
        ) by {
            assert(tracer_ok(*beachline, tracer, e));
        }
        assert forall|e: int| 0 <= e < dcel.halfedges@.len() implies #[trigger] kept_or_done(
            *beachline,
            tracer0,
            tracer,
            e,
            0,
        ) by {}
        beachline.lemma_node(beachline.root);
        assert(dcel.vertices@ =~= v0 + far_vertices(*beachline, pts));
        assert forall|e: int| 0 <= e < dcel.halfedges@.len() implies #[trigger] owned_from(
            *beachline,
            *dcel,
            e,
            0,
        ) by {
            assert(edge_owned(*beachline, *dcel, e));
            if !(dcel.halfedges@[e].origin < dcel.vertices@.len()) {
                let m = choose|m: usize| #[trigger] traces(*beachline, m, e);
                assert(traces(*beachline, m, e) && beachline.place@[m as int] >= 0);
            }
        }
    }
    loop
        invariant_except_break
            beachline.live(current_node),
            pts.len() == beachline.place@[current_node as int] / 2,
            forall|e: int|
                0 <= e < dcel.halfedges@.len() ==> #[trigger] tracer_from(
                    *beachline,
                    tracer,
                    e,
                    beachline.place@[current_node as int],
                ),
            forall|e: int|
                0 <= e < dcel.halfedges@.len() ==> #[trigger] kept_or_done(
                    *beachline,
                    tracer0,
                    tracer,
                    e,
                    beachline.place@[current_node as int],
                ),
            forall|e: int|
                0 <= e < dcel.halfedges@.len() ==> #[trigger] owned_from(
                    *beachline,
                    *dcel,
                    e,
                    beachline.place@[current_node as int],
                ),
        invariant
            beachline.wf(),
            beachline.order@.len() > 0,
            he0 == old(dcel).halfedges@,
            v0 == old(dcel).vertices@,
            dcel.wf(),
            dcel.faces@ == old(dcel).faces@,
            dcel.halfedges@.len() == he0.len(),
            v0.len() + beachline.order@.len() < NIL,
            edges_traced(*beachline, *old(dcel)),
            call_ensures(K::far_directrix, (kernel, bounds), far),
            linked(dcel.halfedges@, back, tracer),
            charted(dcel.halfedges@, dcel.vertices@, tracer),
            forall|m: usize| m < beachline.nodes@.len() ==> #[trigger] node_traced(*beachline, *old(dcel), tracer0, m),
            tracer0.len() == dcel.halfedges@.len(),
            2 * pts.len() <= beachline.order@.len(),
            far_points(kernel, *beachline, far, pts),
            dcel.halfedges@ == edges_extended(*beachline, he0, v0.len(), pts.len()),
            dcel.vertices@ == v0 + far_vertices(*beachline, pts),
            old(dcel).fans() ==> dcel.fans(),
            old(dcel).vertices_live() ==> dcel.vertices_live(),
        ensures
            pts.len() == beachline.order@.len() / 2,
            dcel.origins_set(),
            dcel.next_bijective(),
        decreases beachline.order@.len() - beachline.place@[current_node as int],
    {
        let ghost i = beachline.place@[current_node as int];
        let ghost before = dcel.halfedges@;
        let ghost verts = dcel.vertices@;
        let ghost start = *dcel;
        let ghost tracer_start = tracer;
        let ghost done = pts;
        proof {
            beachline.lemma_node(current_node);
            assert(edge_traced(*beachline, *old(dcel), current_node));
            assert(beachline.order@[i] == current_node);
        }
        match beachline.nodes[current_node].item {
            BeachItem::Leaf(_) => {},
            BeachItem::Internal(breakpoint) => {
                let this_edge = breakpoint.halfedge;
                let this_x = kernel.get_breakpoint_x(breakpoint.left_site, breakpoint.right_site, far.0);
                let this_y = kernel.get_breakpoint_y(breakpoint.left_site, breakpoint.right_site, far.1);

                let vert = Vertex { coordinates: Point::new(this_x, this_y), incident_edge: this_edge, alive: true };
                let vert_ind = dcel.vertices.len();

                let mut he = dcel.halfedges[this_edge];
                he.origin = vert_ind;
                dcel.halfedges.set(this_edge, he);
                proof {
                    assert(twin_ok(before, this_edge as int));
                }
                let this_twin = dcel.halfedges[this_edge].twin;
                let mut he = dcel.halfedges[this_twin];
                he.next = this_edge;
                dcel.halfedges.set(this_twin, he);

                dcel.vertices.push(vert);
                proof {
                    let back_before = back;
                    let tracer_before = tracer;
                    assert(node_traced(*beachline, *old(dcel), tracer0, current_node));
                    assert(tracer_from(*beachline, tracer_before, this_edge as int, i));
                    assert(kept_or_done(*beachline, tracer0, tracer_before, this_edge as int, i));
                    assert(tracer_before[this_edge as int] == current_node);
                    assert(link_ok(before, back_before, tracer_before, this_edge as int));
                    assert(link_ok(before, back_before, tracer_before, this_twin as int));
                    assert(twin_ok(before, this_twin as int));
                    back = back_before.update(this_edge as int, this_twin as int);
                    tracer = tracer_before.update(this_edge as int, -1);
                    assert forall|x: int| 0 <= x < dcel.halfedges@.len() implies #[trigger] link_ok(
                        dcel.halfedges@,
                        back,
                        tracer,
                        x,
                    ) by {
                        assert(link_ok(before, back_before, tracer_before, x));
                        assert(twin_ok(before, x));
                        let y = before[x].next;
                        if y != NIL {
                            assert(link_ok(before, back_before, tracer_before, y as int));
                        }
                        if back_before[x] != -1 {
                            assert(link_ok(before, back_before, tracer_before, back_before[x]));
                        }
                    }
                    assert(origin_ok(before, tracer_before, this_edge as int));
                    assert(origin_ok(before, tracer_before, this_twin as int));
                    assert(links_ok(before, this_twin as int, verts.len() as int, dcel.faces@.len() as int));
                    assert forall|x: int| 0 <= x < dcel.halfedges@.len() implies #[trigger] origin_ok(
                        dcel.halfedges@,
                        tracer,
                        x,
                    ) by {
                        assert(origin_ok(before, tracer_before, x));
                        assert(link_ok(before, back_before, tracer_before, x));
                        assert(twin_ok(before, x));
                        assert(links_ok(before, x, verts.len() as int, dcel.faces@.len() as int));
                        let w = before[x].twin;
                        assert(origin_ok(before, tracer_before, w as int));
                        assert(links_ok(before, w as int, verts.len() as int, dcel.faces@.len() as int));
                        let y = before[x].next;
                        if y != NIL {
                            assert(origin_ok(before, tracer_before, y as int));
                            assert(link_ok(before, back_before, tracer_before, y as int));
                        }
                    }
                    assert forall|v: int| 0 <= v < dcel.vertices@.len() implies #[trigger] vertex_ok(
                        dcel.halfedges@,
                        dcel.vertices@,
                        v,
                    ) by {
                        if v < verts.len() {
                            assert(vertex_ok(before, verts, v));
                            let s = verts[v].incident_edge as int;
                            assert(twin_ok(before, s));
                            let w = before[s].twin as int;
                            assert(origin_ok(before, tracer_before, s));
                            assert(origin_ok(before, tracer_before, w));
                            assert(link_ok(before, back_before, tracer_before, w));
                            assert(links_ok(before, w, verts.len() as int, dcel.faces@.len() as int));
                        }
                    }
                    pts = done.push(vert.coordinates);
                    let k = done.len();
                    assert(i == 2 * k + 1);
                    assert(dcel.halfedges@ =~= edge_extended(before, vert_ind, this_edge));
                    if old(dcel).fans() {
                        assert forall|x: int| 0 <= x < before.len() implies index_or_nil(
                            (#[trigger] before[x]).origin,
                            verts.len() as int,
                        ) by {
                            assert(links_ok(before, x, verts.len() as int, dcel.faces@.len() as int));
                        }
                        assert forall|x: int| 0 <= x < before.len() implies #[trigger] twin_ok(before, x) by {}
                        lemma_start_keeps_fans(before, dcel.halfedges@, verts, this_edge, vert.coordinates);
                    }
                    if old(dcel).vertices_live() {
                        assert forall|v: int| 0 <= v < dcel.vertices@.len() implies (#[trigger] dcel.vertices@[v]).alive by {
                            if v < verts.len() {
                                assert(dcel.vertices@[v] == verts[v]);
                            }
                        }
                    }
                    assert(vert_ind == v0.len() + k);
                    assert(edges_extended(*beachline, he0, v0.len(), (k + 1) as nat) == edge_extended(
                        edges_extended(*beachline, he0, v0.len(), k),
                        (v0.len() + k) as usize,
                        edge_of(beachline.nodes@, beachline.order@[2 * (k + 1) - 1]),
                    ));
                    assert(dcel.vertices@ =~= v0 + far_vertices(*beachline, pts));
                    assert(call_ensures(
                        K::get_breakpoint_x,
                        (kernel, breakpoint.left_site, breakpoint.right_site, far.0),
                        this_x,
                    ));
                    assert(call_ensures(
                        K::get_breakpoint_y,
                        (kernel, breakpoint.left_site, breakpoint.right_site, far.1),
                        this_y,
                    ));
                    assert(far_point(
                        kernel,
                        breakpoint.left_site,
                        breakpoint.right_site,
                        far,
                        vert.coordinates,
                    ));
                    assert forall|j: int| 0 <= j < pts.len() implies far_point(
                        kernel,
                        beachline.nodes@[beachline.order@[2 * j + 1] as int].item->Internal_0.left_site,
                        beachline.nodes@[beachline.order@[2 * j + 1] as int].item->Internal_0.right_site,
                        far,
                        #[trigger] pts[j],
                    ) by {
                        if j < k {
                            assert(pts[j] == done[j]);
                        }
                    }
                    assert forall|e: int| 0 <= e < dcel.halfedges@.len() implies #[trigger] twin_ok(
                        dcel.halfedges@,
                        e,
                    ) by {
                        assert(twin_ok(before, e));
                        assert(dcel.halfedges@[before[e].twin as int].twin == before[before[e].twin as int].twin);
                    }
                    assert forall|e: int| 0 <= e < dcel.halfedges@.len() implies #[trigger] links_ok(
                        dcel.halfedges@,
                        e,
                        dcel.vertices@.len() as int,
                        dcel.faces@.len() as int,
                    ) by {
                        assert(links_ok(before, e, verts.len() as int, dcel.faces@.len() as int));
                    }
                }
            },
        }
        proof {
            assert forall|e: int| 0 <= e < dcel.halfedges@.len() implies #[trigger] tracer_from(
                *beachline,
                tracer,
                e,
                i + 1,
            ) by {
                assert(tracer_from(*beachline, tracer_start, e, i));
                assert(kept_or_done(*beachline, tracer0, tracer_start, e, i));
                if tracer[e] != -1 {
                    let m = tracer[e] as usize;
                    assert(tracer[e] == tracer_start[e]);
                    assert(beachline.order@[beachline.place@[m as int]] == m);
                    if m == current_node {
                        assert(node_traced(*beachline, *old(dcel), tracer0, current_node));
                    }
                }
            }
            assert forall|e: int| 0 <= e < dcel.halfedges@.len() implies #[trigger] kept_or_done(
                *beachline,
                tracer0,
                tracer,
                e,
                i + 1,
            ) by {
                assert(kept_or_done(*beachline, tracer0, tracer_start, e, i));
                assert(tracer_from(*beachline, tracer_start, e, i));
            }
            assert forall|e: int| 0 <= e < dcel.halfedges@.len() implies #[trigger] owned_from(
                *beachline,
                *dcel,
                e,
                i + 1,
            ) by {
                assert(owned_from(*beachline, start, e, i));
                if !(before[e].origin < verts.len()) {
                    let m = choose|m: usize| #[trigger] traces(*beachline, m, e) && beachline.place@[m as int] >= i;
                    if m == current_node {
                        assert(dcel.halfedges@[e].origin < dcel.vertices@.len());
                    } else {
                        assert(beachline.order@[beachline.place@[m as int]] == m);
                        assert(traces(*beachline, m, e) && beachline.place@[m as int] >= i + 1);
                    }
                } else {
                    assert(dcel.halfedges@[e].origin == before[e].origin || dcel.halfedges@[e].origin
                        == verts.len());
                }
            }
        }
        match beachline.successor(current_node) {
            Some(next_node) => {
                proof {
                    beachline.lemma_at_live(i + 1);
                }
                current_node = next_node;
            },
            None => {
                proof {
                    assert forall|e: int| 0 <= e < dcel.halfedges@.len() implies (
                    #[trigger] dcel.halfedges@[e]).origin < dcel.vertices@.len() by {
                        assert(owned_from(*beachline, *dcel, e, i + 1));
                    }
                    assert forall|e: int| 0 <= e < dcel.halfedges@.len() implies tracer[e] == -1 by {
                        assert(tracer_from(*beachline, tracer, e, i + 1));
                    }
                    assert(tracer =~= no_tracer(dcel.halfedges@.len()));
                }
                break ;
            },
        }
    }
}

/// What `tracer` names for the half-edge `e` is what `tracer0` named for it,
/// or nothing where that was a breakpoint to the left of the place `from`.
pub open spec fn kept_or_done(b: BeachLine, tracer0: Seq<int>, tracer: Seq<int>, e: int, from: int) -> bool {
    tracer[e] == tracer0[e] || (tracer[e] == -1 && tracer0[e] != -1 && b.place@[tracer0[e]] < from)
}

/// If `tracer` names a slot for the half-edge `e`, the slot holds a
/// breakpoint that traces `e` and stands at the place `from` of the
/// beachline or further right.
pub open spec fn tracer_from(b: BeachLine, tracer: Seq<int>, e: int, from: int) -> bool {
    tracer[e] == -1 || (0 <= tracer[e] <= usize::MAX && traces(b, tracer[e] as usize, e) && b.place@[tracer[e]]
        >= from)
}

/// The half-edge `e` starts at a vertex, or a breakpoint that stands at the
/// place `from` of the beachline or further right is still tracing it.
pub open spec fn owned_from(b: BeachLine, d: DCEL, e: int, from: int) -> bool {
    d.halfedges@[e].origin < d.vertices@.len() || exists|m: usize| #[trigger]
        traces(b, m, e) && b.place@[m as int] >= from
}

/// The half-edges after the first `k` vertices have been looked at, where
/// `outs` says which of them lie outside: each that does has lost the
/// half-edges that the walk round it met, and their twins.
pub open spec fn pruned(he: Seq<HalfEdge>, vertices: Seq<Vertex>, outs: Seq<bool>, k: nat) -> Seq<HalfEdge>
    decreases k,
{
    if k == 0 {
        he
    } else {
        let so_far = pruned(he, vertices, outs, (k - 1) as nat);
        if outs[k - 1] {
            without_edges(so_far, fan(so_far, vertices[k - 1].incident_edge))
        } else {
            so_far
        }
    }
}

/// The vertices after the first `k` have been looked at: those that lie
/// outside are dead.
pub open spec fn pruned_vertices(vertices: Seq<Vertex>, outs: Seq<bool>, k: nat) -> Seq<Vertex> {
    Seq::new(
        vertices.len(),
        |v: int|
            if v < k && outs[v] {
                Vertex { alive: false, ..vertices[v] }
            } else {
                vertices[v]
            },
    )
}

/// If the vertex `v` lies outside, the walk round it closed when its turn
/// came.
pub open spec fn fan_closed_at(he: Seq<HalfEdge>, vertices: Seq<Vertex>, outs: Seq<bool>, v: int) -> bool {
    outs[v] ==> fan_closes(pruned(he, vertices, outs, v as nat), vertices[v].incident_edge)
}

/// Does the point lie outside the limits: to the left of the least x, to
/// the right of the greatest, below the least y or above the greatest?
pub open spec fn lies_outside(pt: Point, limits: Limits) -> bool {
    ||| rank(pt.x) < rank(limits.0)
    ||| rank(limits.1) < rank(pt.x)
    ||| rank(pt.y) < rank(limits.2)
    ||| rank(limits.3) < rank(pt.y)
}

/// Tests whether a point lies outside the limits.
pub fn outside_bb(pt: Point, limits: Limits) -> (r: bool)
    ensures
        r == lies_outside(pt, limits),
{
    coord_lt(pt.x(), limits.0) || coord_lt(limits.1, pt.x()) || coord_lt(pt.y(), limits.2) || coord_lt(
        limits.3,
        pt.y(),
    )
}

/// Are `lines` the four lines that cut the diagram to the rectangle
/// `[0, max_x] x [0, max_y]`: the line at y = 0, the line at x = max_x, the
/// line at x = 0 and the line at y = max_y, in this order, each running
/// from the least to the greatest limit of `reach`?
pub open spec fn lines_are(bounds: Bounds, reach: Limits, lines: [Segment; 4]) -> bool {
    &&& lines[0]@ == seq![Point { x: reach.0, y: 0 }, Point { x: reach.1, y: 0 }]
    &&& lines[1]@ == seq![Point { x: bounds.0, y: reach.2 }, Point { x: bounds.0, y: reach.3 }]
    &&& lines[2]@ == seq![Point { x: 0, y: reach.2 }, Point { x: 0, y: reach.3 }]
    &&& lines[3]@ == seq![Point { x: reach.0, y: bounds.1 }, Point { x: reach.1, y: bounds.1 }]
}

/// The four lines that cut the diagram to the bounding rectangle, each
/// reaching past the rectangle's corners as far as `reach` says.
pub fn bounding_lines(bounds: Bounds, reach: Limits) -> (lines: [Segment; 4])
    ensures
        lines_are(bounds, reach, lines),
{
    let bb_top: Segment = [Point::new(reach.0, 0), Point::new(reach.1, 0)];
    let bb_bottom: Segment = [Point::new(reach.0, bounds.1), Point::new(reach.1, bounds.1)];
    let bb_left: Segment = [Point::new(0, reach.2), Point::new(0, reach.3)];
    let bb_right: Segment = [Point::new(bounds.0, reach.2), Point::new(bounds.0, reach.3)];
    let lines: [Segment; 4] = [bb_top, bb_right, bb_left, bb_bottom];
    proof {
        assert(lines[0]@ =~= seq![Point { x: reach.0, y: 0 }, Point { x: reach.1, y: 0 }]);
        assert(lines[1]@ =~= seq![Point { x: bounds.0, y: reach.2 }, Point { x: bounds.0, y: reach.3 }]);
        assert(lines[2]@ =~= seq![Point { x: 0, y: reach.2 }, Point { x: 0, y: reach.3 }]);
        assert(lines[3]@ =~= seq![Point { x: reach.0, y: bounds.1 }, Point { x: reach.1, y: bounds.1 }]);
    }
    lines
}

/// Does each of the first `k` entries of `outs` say whether the vertex at
/// its place lies outside the limits `margin`?
pub open spec fn outside_answers(margin: Limits, vertices: Seq<Vertex>, outs: Seq<bool>, k: nat) -> bool {
    forall|v: int| 0 <= v < k ==> #[trigger] outs[v] == lies_outside(vertices[v].coordinates, margin)
}

/// No live vertex lies outside the limits.
pub open spec fn within(vertices: Seq<Vertex>, margin: Limits) -> bool {
    forall|v: int| 0 <= v < vertices.len() && (#[trigger] vertices[v]).alive ==> !lies_outside(vertices[v].coordinates, margin)
}

/// What `outs` says of the first `k` vertices decides what has been pruned
/// when `k` vertices have been looked at.
pub proof fn lemma_pruned_prefix(he: Seq<HalfEdge>, vertices: Seq<Vertex>, a: Seq<bool>, b: Seq<bool>, k: nat)
    requires
        k <= a.len(),
        k <= b.len(),
        forall|v: int| 0 <= v < k ==> a[v] == b[v],
    ensures
        pruned(he, vertices, a, k) == pruned(he, vertices, b, k),
    decreases k,
{
    if k > 0 {
        lemma_pruned_prefix(he, vertices, a, b, (k - 1) as nat);
    }
}

/// The steps by which an edge list is closed off against the bounding
/// rectangle: the unfinished half-edges are led out, the four lines that the
/// kernel gave are added, every half-edge is entered as the `prev` of its
/// `next`, and the vertices are looked at one after the other, those that
/// lie outside the limits that the kernel gave losing their half-edges, so
/// that no live vertex lies outside them.
pub open spec fn closing_steps<K: Kernel>(
    kernel: &K,
    bounds: Bounds,
    b: BeachLine,
    before: DCEL,
    led: DCEL,
    reach: Limits,
    margin: Limits,
    lines: [Segment; 4],
    first: DCEL,
    second: DCEL,
    third: DCEL,
    fourth: DCEL,
    linked: DCEL,
    outs: Seq<bool>,
    after: DCEL,
) -> bool {
    &&& edges_led_out(kernel, bounds, b, before, led)
    &&& call_ensures(K::outer_limits, (kernel, bounds), reach)
    &&& call_ensures(K::inner_limits, (kernel, bounds), margin)
    &&& lines_are(bounds, reach, lines)
    &&& line_added(kernel, lines[0], led, first)
    &&& line_added(kernel, lines[1], first, second)
    &&& line_added(kernel, lines[2], second, third)
    &&& line_added(kernel, lines[3], third, fourth)
    &&& DCEL::prev_is_set(fourth.halfedges@, linked.halfedges@)
    &&& linked.vertices@ == fourth.vertices@
    &&& linked.faces@ == fourth.faces@
    &&& outs.len() == linked.vertices@.len()
    &&& outside_answers(margin, linked.vertices@, outs, outs.len())
    &&& forall|v: int| 0 <= v < outs.len() ==> #[trigger] fan_closed_at(linked.halfedges@, linked.vertices@, outs, v)
    &&& after.halfedges@ == pruned(linked.halfedges@, linked.vertices@, outs, outs.len())
    &&& after.vertices@ == pruned_vertices(linked.vertices@, outs, outs.len())
    &&& after.faces@ == linked.faces@
    &&& within(after.vertices@, margin)
}

/// Is `after` what closing off against the bounding rectangle makes of
/// `before`?
pub open spec fn closed_off<K: Kernel>(kernel: &K, bounds: Bounds, b: BeachLine, before: DCEL, after: DCEL) -> bool {
    exists|
        led: DCEL,
        reach: Limits,
        margin: Limits,
        lines: [Segment; 4],
        first: DCEL,
        second: DCEL,
        third: DCEL,
        fourth: DCEL,
        linked: DCEL,
        outs: Seq<bool>,
    | #[trigger]
        closing_steps(
            kernel,
            bounds,
            b,
            before,
            led,
            reach,
            margin,
            lines,
            first,
            second,
            third,
            fourth,
            linked,
            outs,
            after,
        )
}

/// The most half-edges, and the most vertices together with the nodes of
/// the beachline, with which the diagram can be closed off.
pub const CLOSING_LIMIT: usize = usize::MAX / 1024;

/// Closes the diagram off against the bounding rectangle: the unfinished
/// half-edges are led far outside, the four lines of the rectangle are cut
/// into the edge list, every half-edge learns what precedes it, and the
/// vertices outside the rectangle are taken away with the half-edges that
/// touch them.
#[verifier::rlimit(60)]
pub fn add_bounding_box<K: Kernel>(kernel: &K, bounds: Bounds, beachline: &BeachLine, dcel: &mut DCEL)
    requires
        beachline.wf(),
        beachline.order@.len() > 0,
        old(dcel).wf(),
        edges_traced(*beachline, *old(dcel)),
        edges_owned(*beachline, *old(dcel)),
        links_open(*beachline, *old(dcel)),
        old(dcel).halfedges@.len() <= CLOSING_LIMIT,
        old(dcel).vertices@.len() + beachline.order@.len() <= CLOSING_LIMIT,
    ensures
        final(dcel).wf(),
        final(dcel).links_closed(),
        final(dcel).origins_set(),
        final(dcel).on_rings(),
        final(dcel).chained(),
        final(dcel).anchored(),
        final(dcel).live_links(),
        old(dcel).fans() && old(dcel).vertices_live() ==> final(dcel).live_origins(),
        closed_off(kernel, bounds, *beachline, *old(dcel), *final(dcel)),
        exists|margin: Limits| #[trigger]
            call_ensures(K::inner_limits, (kernel, bounds), margin) && within(final(dcel).vertices@, margin),
{
    extend_edges(kernel, beachline, dcel, bounds);
    let ghost led = *dcel;
    let reach = kernel.outer_limits(bounds);
    let margin = kernel.inner_limits(bounds);
    let lines = bounding_lines(bounds, reach);
    let bb_top = lines[0];
    let bb_right = lines[1];
    let bb_left = lines[2];
    let bb_bottom = lines[3];

    add_line(kernel, bb_top, dcel);
    let ghost first = *dcel;
    add_line(kernel, bb_right, dcel);
    let ghost second = *dcel;
    add_line(kernel, bb_left, dcel);
    let ghost third = *dcel;
    add_line(kernel, bb_bottom, dcel);
    let ghost fourth = *dcel;

    dcel.set_prev();
    let ghost linked = *dcel;
    proof {
        assert forall|e: int| 0 <= e < dcel.halfedges@.len() implies (#[trigger] dcel.halfedges@[e]).origin
            < dcel.vertices@.len() by {}
        lemma_pruning_starts(fourth, linked);
        if old(dcel).fans() && old(dcel).vertices_live() {
            assert forall|x: int| 0 <= x < fourth.halfedges@.len() implies #[trigger] twin_ok(
                fourth.halfedges@,
                x,
            ) by {}
            lemma_prev_keeps_fans(fourth.halfedges@, linked.halfedges@, linked.vertices@);
            assert forall|x: int| 0 <= x < linked.halfedges@.len() implies #[trigger] rooted_at(
                linked.halfedges@,
                linked.vertices@,
                x,
            ) by {}
        }
    }
    let ghost mut outs: Seq<bool> = Seq::empty();
    let num_vertices = dcel.vertices.len();
    let mut vert: usize = 0;
    proof {
        assert(dcel.vertices@ =~= pruned_vertices(linked.vertices@, outs, 0));
    }
    while vert < num_vertices
        invariant
            vert <= num_vertices,
            num_vertices == dcel.vertices@.len(),
            num_vertices == linked.vertices@.len(),
            dcel.wf(),
            dcel.links_closed(),
            dcel.origins_set(),
            dcel.on_rings(),
            pruning(dcel.halfedges@, dcel.vertices@, vert as int),
            old(dcel).fans() && old(dcel).vertices_live() ==> dcel.live_origins() && fanned(
                dcel.halfedges@,
                dcel.vertices@,
                vert as int,
            ),
            dcel.faces@ == linked.faces@,
            edges_led_out(kernel, bounds, *beachline, *old(dcel), led),
            call_ensures(K::outer_limits, (kernel, bounds), reach),
            call_ensures(K::inner_limits, (kernel, bounds), margin),
            lines_are(bounds, reach, lines),
            line_added(kernel, lines[0], led, first),
            line_added(kernel, lines[1], first, second),
            line_added(kernel, lines[2], second, third),
            line_added(kernel, lines[3], third, fourth),
            DCEL::prev_is_set(fourth.halfedges@, linked.halfedges@),
            linked.vertices@ == fourth.vertices@,
            linked.faces@ == fourth.faces@,
            outs.len() == vert,
            outside_answers(margin, linked.vertices@, outs, vert as nat),
            forall|v: int| 0 <= v < vert ==> #[trigger] fan_closed_at(linked.halfedges@, linked.vertices@, outs, v),
            dcel.halfedges@ == pruned(linked.halfedges@, linked.vertices@, outs, vert as nat),
            dcel.vertices@ == pruned_vertices(linked.vertices@, outs, vert as nat),
        decreases num_vertices - vert,
    {
        let ghost seen = outs;
        let ghost so_far = dcel.halfedges@;
        let this_pt = dcel.vertices[vert].coordinates;
        let outside = outside_bb(this_pt, margin);
        proof {
            outs = seen.push(outside);
            lemma_pruned_prefix(linked.halfedges@, linked.vertices@, seen, outs, vert as nat);
            assert forall|v: int| 0 <= v < vert implies #[trigger] fan_closed_at(
                linked.halfedges@,
                linked.vertices@,
                outs,
                v,
            ) by {
                assert(fan_closed_at(linked.halfedges@, linked.vertices@, seen, v));
                lemma_pruned_prefix(linked.halfedges@, linked.vertices@, seen, outs, v as nat);
            }
            assert(this_pt == linked.vertices@[vert as int].coordinates);
            assert forall|v: int| 0 <= v < vert + 1 implies #[trigger] outs[v] == lies_outside(
                linked.vertices@[v].coordinates,
                margin,
            ) by {
                if v < vert {
                    assert(outs[v] == seen[v]);
                }
            }
            assert(dcel.vertices@ =~= pruned_vertices(linked.vertices@, outs, vert as nat));
        }
        if outside {
            proof {
                assert forall|x: int| 0 <= x < dcel.halfedges@.len() implies #[trigger] twin_ok(
                    dcel.halfedges@,
                    x,
                ) by {}
                lemma_fan_closes(dcel.halfedges@, dcel.vertices@, vert as int);
            }
            dcel.remove_vertex(vert);
        } else {
            proof {
                lemma_pruning_step(dcel.halfedges@, dcel.vertices@, vert as int);
                if old(dcel).fans() && old(dcel).vertices_live() {
                    lemma_fans_step(dcel.halfedges@, dcel.vertices@, vert as int);
                }
            }
        }
        proof {
            assert(pruned(linked.halfedges@, linked.vertices@, outs, (vert + 1) as nat) == if outs[vert as int] {
                without_edges(so_far, fan(so_far, linked.vertices@[vert as int].incident_edge))
            } else {
                so_far
            });
            assert(dcel.vertices@ =~= pruned_vertices(linked.vertices@, outs, (vert + 1) as nat));
            assert(fan_closed_at(linked.halfedges@, linked.vertices@, outs, vert as int));
        }
        vert += 1;
    }
    proof {
        lemma_pruning_ends(*dcel, vert as int);
        assert forall|v: int| 0 <= v < dcel.vertices@.len() && (#[trigger] dcel.vertices@[v]).alive implies !lies_outside(
            dcel.vertices@[v].coordinates,
            margin,
        ) by {
            assert(outs[v] == lies_outside(linked.vertices@[v].coordinates, margin));
        }
        assert(within(dcel.vertices@, margin));
        assert(closing_steps(
            kernel,
            bounds,
            *beachline,
            *old(dcel),
            led,
            reach,
            margin,
            lines,
            first,
            second,
            third,
            fourth,
            linked,
            outs,
            *dcel,
        ));
    }
}

/// The most sites that the sweep takes.
pub const MAX_SITES: usize = usize::MAX / 8192;

/// The pending event `id` is a site event exactly if its id is below `n`.
pub open spec fn site_id_ok(q: EventQueue, id: usize, n: usize) -> bool {
    (q@[id] is Site) == (id < n)
}

/// The pending site events are the pending events with an id below `n`.
pub open spec fn site_ids(q: EventQueue, n: usize) -> bool {
    forall|id: usize| q@.dom().contains(id) ==> #[trigger] site_id_ok(q, id, n)
}

/// The pending event that the arc in slot `m` names, if it names one, has
/// an id from `n` on.
pub open spec fn names_circle(nodes: Seq<BeachNode>, m: usize, n: usize) -> bool {
    pending_event(nodes, m) matches Some(e) ==> e >= n
}

/// No arc names an event with an id below `n`.
pub open spec fn arcs_name_circles(b: BeachLine, n: usize) -> bool {
    forall|m: usize| m < b.nodes@.len() ==> #[trigger] names_circle(b.nodes@, m, n)
}

/// What a site event does to the sizes of the three structures and to the
/// ids of the pending events, where the site events have the ids below `n`.
proof fn lemma_site_step<K: Kernel>(
    kernel: &K,
    site: Point,
    q0: EventQueue,
    b0: BeachLine,
    d0: DCEL,
    q: EventQueue,
    b: BeachLine,
    d: DCEL,
    n: usize,
)
    requires
        b0.wf(),
        b0.nodes@.len() + 5 < NIL,
        d0.halfedges@.len() + 2 < NIL,
        q0.next_event_id + 2 <= usize::MAX,
        site_handled(kernel, site, q0, b0, d0, q, b, d),
        site_ids(q0, n),
        arcs_name_circles(b0, n),
        n <= q0.next_event_id,
    ensures
        site_ids(q, n),
        arcs_name_circles(b, n),
        b.nodes@.len() == if b0.order@.len() == 0 {
            1
        } else {
            b0.nodes@.len() + 5
        },
        b.order@.len() == if b0.order@.len() == 0 {
            1
        } else {
            b0.order@.len() + 4
        },
        d.halfedges@.len() == if b0.order@.len() == 0 {
            d0.halfedges@.len()
        } else {
            d0.halfedges@.len() + 2
        },
        d.vertices@ == d0.vertices@,
        d.faces@ == d0.faces@,
        q0.next_event_id <= q.next_event_id <= q0.next_event_id + 2,
        forall|id: usize| id < n ==> #[trigger] q@.dom().contains(id) == q0@.dom().contains(id),
{
    if b0.order@.len() == 0 {
        assert forall|id: usize| q@.dom().contains(id) implies #[trigger] site_id_ok(q, id, n) by {
            assert(site_id_ok(q0, id, n));
        }
        assert forall|m: usize| m < b.nodes@.len() implies #[trigger] names_circle(b.nodes@, m, n) by {}
    } else {
        let (arc, left, right) = choose|arc: usize, left: Option<(Point, u64)>, right: Option<(Point, u64)>| #[trigger]
            site_split(kernel, site, q0, b0, d0, q, b, d, arc, left, right);
        let len = b0.nodes@.len() as usize;
        let p = b0.place@[arc as int];
        let id = q0.next_event_id;
        b0.lemma_node(arc);
        let cleared = with_event(b0.nodes@, arc, None);
        let split = split_nodes(cleared, arc, site, d0.halfedges@.len() as usize);
        assert(cleared.len() == len);
        assert(split.len() == len + 5);
        let first = nodes_with(split, id, (len + 2) as usize, left);
        assert(first.len() == len + 5);
        assert(b.nodes@.len() == len + 5);
        assert(names_circle(b0.nodes@, arc, n));
        assert forall|m: usize| m < b.nodes@.len() implies #[trigger] names_circle(b.nodes@, m, n) by {
            if m < len {
                assert(names_circle(b0.nodes@, m, n));
                assert(split[m as int].item == cleared[m as int].item);
                assert(first[m as int].item == split[m as int].item);
                assert(b.nodes@[m as int].item == first[m as int].item);
            } else {
                assert(pending_event(split, m) is None);
            }
        }
        let e0 = events_without(q0@, pending_event(b0.nodes@, arc));
        let e1 = events_with(e0, id, (len + 2) as usize, left);
        assert forall|key: usize| q@.dom().contains(key) implies #[trigger] site_id_ok(q, key, n) by {
            if e0.dom().contains(key) {
                assert(site_id_ok(q0, key, n));
            }
        }
        assert forall|key: usize| key < n implies #[trigger] q@.dom().contains(key) == q0@.dom().contains(key) by {
            assert(e1.dom().contains(key) == e0.dom().contains(key));
        }
    }
}

/// What a circle event does to the sizes of the three structures and to
/// the ids of the pending events, where the site events have the ids below
/// `n`.
proof fn lemma_circle_step<K: Kernel>(
    kernel: &K,
    leaf: usize,
    center: Point,
    q0: EventQueue,
    b0: BeachLine,
    d0: DCEL,
    q: EventQueue,
    b: BeachLine,
    d: DCEL,
    left: Option<(Point, u64)>,
    right: Option<(Point, u64)>,
    n: usize,
)
    requires
        b0.wf(),
        b0.is_arc(leaf),
        2 <= b0.place@[leaf as int],
        b0.place@[leaf as int] + 2 < b0.order@.len(),
        d0.halfedges@.len() + 2 < NIL,
        d0.vertices@.len() + 1 < NIL,
        d0.wf(),
        edges_traced(b0, d0),
        q0.next_event_id + 2 <= usize::MAX,
        circle_handled(kernel, leaf, center, q0, b0, d0, q, b, d, left, right),
        site_ids(q0, n),
        arcs_name_circles(b0, n),
        n <= q0.next_event_id,
    ensures
        site_ids(q, n),
        arcs_name_circles(b, n),
        b.nodes@.len() == b0.nodes@.len(),
        b.order@.len() == b0.order@.len() - 2,
        d.halfedges@.len() == d0.halfedges@.len() + 2,
        d.vertices@.len() == d0.vertices@.len() + 1,
        d.faces@ == d0.faces@,
        q0.next_event_id <= q.next_event_id <= q0.next_event_id + 2,
        forall|id: usize| id < n ==> #[trigger] q@.dom().contains(id) == q0@.dom().contains(id),
{
    let p = b0.place@[leaf as int];
    let left_arc = b0.order@[p - 2];
    let right_arc = b0.order@[p + 2];
    let other = delete_other(b0, leaf);
    let id = q0.next_event_id;
    lemma_inner_arc(b0, leaf);
    b0.lemma_at_live(p - 2);
    b0.lemma_at_live(p + 2);
    b0.lemma_at_live(p - 1);
    b0.lemma_at_live(p + 1);
    b0.lemma_node(leaf);
    let parent = b0.nodes@[leaf as int].parent->0;
    b0.lemma_node(parent);
    assert(edge_traced(b0, d0, b0.order@[p - 1]));
    assert(edge_traced(b0, d0, b0.order@[p + 1]));
    assert(twin_ok(d0.halfedges@, edge_of(b0.nodes@, b0.order@[p - 1]) as int));
    assert(twin_ok(d0.halfedges@, edge_of(b0.nodes@, b0.order@[p + 1]) as int));
    let deleted = delete_nodes(b0, leaf);
    assert(deleted.len() == b0.nodes@.len());
    assert forall|m: usize| m < b0.nodes@.len() implies #[trigger] pending_event(deleted, m) == pending_event(
        b0.nodes@,
        m,
    ) by {
        if b0.nodes@[m as int].item is Leaf {
            assert(m != other);
            assert(deleted[m as int].item == b0.nodes@[m as int].item);
        } else {
            assert(deleted[m as int].item is Internal);
        }
    }
    let c1 = with_event(deleted, leaf, None);
    let c2 = with_event(c1, left_arc, None);
    let c3 = with_event(c2, right_arc, None);
    let traced = with_edge(c3, other, (d0.halfedges@.len() + 1) as usize);
    let first = nodes_with(traced, id, left_arc, left);
    assert(traced.len() == b0.nodes@.len());
    assert(first.len() == b0.nodes@.len());
    assert forall|m: usize| m < b.nodes@.len() implies #[trigger] names_circle(b.nodes@, m, n) by {
        assert(names_circle(b0.nodes@, m, n));
        assert(pending_event(deleted, m) == pending_event(b0.nodes@, m));
        assert(pending_event(c3, m) is None || pending_event(c3, m) == pending_event(deleted, m));
        assert(pending_event(traced, m) == pending_event(c3, m) || pending_event(traced, m) is None);
    }
    assert(names_circle(b0.nodes@, leaf, n));
    assert(names_circle(b0.nodes@, left_arc, n));
    assert(names_circle(b0.nodes@, right_arc, n));
    let e0 = events_without(q0@, pending_event(b0.nodes@, leaf));
    let e1 = events_without(e0, pending_event(b0.nodes@, left_arc));
    let e2 = events_without(e1, pending_event(b0.nodes@, right_arc));
    let e3 = events_with(e2, id, left_arc, left);
    assert forall|key: usize| q@.dom().contains(key) implies #[trigger] site_id_ok(q, key, n) by {
        if e2.dom().contains(key) {
            assert(site_id_ok(q0, key, n));
        }
    }
    assert forall|key: usize| key < n implies #[trigger] q@.dom().contains(key) == q0@.dom().contains(key) by {
        assert(e3.dom().contains(key) == e2.dom().contains(key));
        assert(e2.dom().contains(key) == q0@.dom().contains(key));
    }
}

/// Is `e` the circle event that removes the arc in slot `m`?
pub open spec fn removes(e: VoronoiEvent, m: usize) -> bool {
    match e {
        VoronoiEvent::Circle(_, _, arc) => arc == m,
        VoronoiEvent::Site(_) => false,
    }
}

/// If the arc in slot `m` names an event, the event is pending, and it is
/// the circle event that removes the arc.
pub open spec fn arc_linked(q: EventQueue, nodes: Seq<BeachNode>, m: usize) -> bool {
    match pending_event(nodes, m) {
        Some(id) => q@.dom().contains(id) && removes(q@[id], m),
        None => true,
    }
}

/// Every event that an arc names is pending, and is the circle event that
/// removes the arc.
pub open spec fn arcs_linked(q: EventQueue, b: BeachLine) -> bool {
    forall|m: usize| m < b.nodes@.len() ==> #[trigger] arc_linked(q, b.nodes@, m)
}

/// What holds of slot `m` when the circle event of the arc in slot `leaf`
/// has just left the queue: the event that `leaf` names is no longer
/// pending, and an event that another arc names is pending, and is the
/// circle event that removes that arc.
pub open spec fn arc_linked_but(q: EventQueue, nodes: Seq<BeachNode>, leaf: usize, m: usize) -> bool {
    if m == leaf {
        match pending_event(nodes, m) {
            Some(id) => !q@.dom().contains(id),
            None => true,
        }
    } else {
        arc_linked(q, nodes, m)
    }
}

/// The arcs name pending events, but for the arc in slot `leaf`, whose
/// circle event has just left the queue.
pub open spec fn arcs_linked_but(q: EventQueue, b: BeachLine, leaf: usize) -> bool {
    forall|m: usize| m < b.nodes@.len() ==> #[trigger] arc_linked_but(q, b.nodes@, leaf, m)
}

/// When an event leaves the queue, the arcs go on naming pending events,
/// but for the arc that the event removes, if it is a circle event.
pub proof fn lemma_arcs_after_pop(q0: EventQueue, q1: EventQueue, b: BeachLine, id: usize)
    requires
        arcs_linked(q0, b),
        events_linked(q0, b),
        q0@.dom().contains(id),
        q1@ == q0@.remove(id),
    ensures
        match q0@[id] {
            VoronoiEvent::Site(_) => arcs_linked(q1, b),
            VoronoiEvent::Circle(_, _, leaf) => arcs_linked_but(q1, b, leaf),
        },
{
    assert(arc_event_ok(q0, b, id));
    match q0@[id] {
        VoronoiEvent::Site(_) => {
            assert forall|m: usize| m < b.nodes@.len() implies #[trigger] arc_linked(q1, b.nodes@, m) by {
                assert(arc_linked(q0, b.nodes@, m));
            }
        },
        VoronoiEvent::Circle(_, _, leaf) => {
            assert forall|m: usize| m < b.nodes@.len() implies #[trigger] arc_linked_but(
                q1,
                b.nodes@,
                leaf,
                m,
            ) by {
                assert(arc_linked(q0, b.nodes@, m));
            }
        },
    }
}

/// A site event leaves every arc naming a pending event, if it names one.
pub proof fn lemma_site_keeps_arcs<K: Kernel>(
    kernel: &K,
    site: Point,
    q0: EventQueue,
    b0: BeachLine,
    d0: DCEL,
    q: EventQueue,
    b: BeachLine,
    d: DCEL,
)
    requires
        q0.wf(),
        b0.wf(),
        b0.nodes@.len() + 5 < NIL,
        q0.next_event_id + 2 <= usize::MAX,
        arcs_linked(q0, b0),
        site_handled(kernel, site, q0, b0, d0, q, b, d),
    ensures
        arcs_linked(q, b),
{
    if b0.order@.len() == 0 {
        assert forall|m: usize| m < b.nodes@.len() implies #[trigger] arc_linked(q, b.nodes@, m) by {}
    } else {
        let (arc, left, right) = choose|arc: usize, left: Option<(Point, u64)>, right: Option<(Point, u64)>| #[trigger]
            site_split(kernel, site, q0, b0, d0, q, b, d, arc, left, right);
        let len = b0.nodes@.len() as usize;
        let id = q0.next_event_id;
        q0.lemma_pending_ids();
        b0.lemma_node(arc);
        let cleared = with_event(b0.nodes@, arc, None);
        let split = split_nodes(cleared, arc, site, d0.halfedges@.len() as usize);
        assert(cleared.len() == len);
        assert(split.len() == len + 5);
        let first = nodes_with(split, id, (len + 2) as usize, left);
        assert(first.len() == len + 5);
        let e0 = events_without(q0@, pending_event(b0.nodes@, arc));
        let e1 = events_with(e0, id, (len + 2) as usize, left);
        assert(arc_linked(q0, b0.nodes@, arc));
        assert forall|m: usize| m < b.nodes@.len() implies #[trigger] arc_linked(q, b.nodes@, m) by {
            if m < len {
                assert(arc_linked(q0, b0.nodes@, m));
                assert(split[m as int].item == cleared[m as int].item);
                assert(first[m as int].item == split[m as int].item);
                assert(b.nodes@[m as int].item == first[m as int].item);
                if m != arc {
                    assert(cleared[m as int].item == b0.nodes@[m as int].item);
                    if let Some(x) = pending_event(b0.nodes@, m) {
                        assert(e0.dom().contains(x) && e0[x] == q0@[x]);
                        assert(e1.dom().contains(x) && e1[x] == q0@[x]);
                    }
                }
            } else if m == len + 2 {
                if left is Some {
                    assert(e1.dom().contains(id) && removes(e1[id], m));
                }
            } else if m == len + 4 {
                assert(first[m as int].item == split[m as int].item);
            } else {
                assert(first[m as int].item == split[m as int].item);
                assert(b.nodes@[m as int].item == first[m as int].item);
            }
        }
    }
}

/// A circle event leaves every arc naming a pending event, if it names
/// one.
pub proof fn lemma_circle_keeps_arcs<K: Kernel>(
    kernel: &K,
    leaf: usize,
    center: Point,
    q0: EventQueue,
    b0: BeachLine,
    d0: DCEL,
    q: EventQueue,
    b: BeachLine,
    d: DCEL,
    left: Option<(Point, u64)>,
    right: Option<(Point, u64)>,
)
    requires
        q0.wf(),
        b0.wf(),
        b0.is_arc(leaf),
        2 <= b0.place@[leaf as int],
        b0.place@[leaf as int] + 2 < b0.order@.len(),
        q0.next_event_id + 2 <= usize::MAX,
        arcs_linked_but(q0, b0, leaf),
        circle_handled(kernel, leaf, center, q0, b0, d0, q, b, d, left, right),
    ensures
        arcs_linked(q, b),
{
    let p = b0.place@[leaf as int];
    let left_arc = b0.order@[p - 2];
    let right_arc = b0.order@[p + 2];
    let other = delete_other(b0, leaf);
    let id = q0.next_event_id;
    q0.lemma_pending_ids();
    lemma_inner_arc(b0, leaf);
    b0.lemma_at_live(p - 2);
    b0.lemma_at_live(p + 2);
    b0.lemma_at_live(p - 1);
    b0.lemma_at_live(p + 1);
    b0.lemma_node(leaf);
    let parent = b0.nodes@[leaf as int].parent->0;
    b0.lemma_node(parent);
    let deleted = delete_nodes(b0, leaf);
    assert(deleted.len() == b0.nodes@.len());
    assert forall|m: usize| m < b0.nodes@.len() implies #[trigger] pending_event(deleted, m) == pending_event(
        b0.nodes@,
        m,
    ) by {
        if b0.nodes@[m as int].item is Leaf {
            assert(m != other);
            assert(deleted[m as int].item == b0.nodes@[m as int].item);
        } else {
            assert(deleted[m as int].item is Internal);
        }
    }
    let c1 = with_event(deleted, leaf, None);
    let c2 = with_event(c1, left_arc, None);
    let c3 = with_event(c2, right_arc, None);
    let traced = with_edge(c3, other, (d0.halfedges@.len() + 1) as usize);
    let first = nodes_with(traced, id, left_arc, left);
    assert(traced.len() == b0.nodes@.len());
    assert(first.len() == b0.nodes@.len());
    let e0 = events_without(q0@, pending_event(b0.nodes@, leaf));
    let e1 = events_without(e0, pending_event(b0.nodes@, left_arc));
    let e2 = events_without(e1, pending_event(b0.nodes@, right_arc));
    let e3 = events_with(e2, id, left_arc, left);
    assert(arc_linked_but(q0, b0.nodes@, leaf, leaf));
    assert(arc_linked_but(q0, b0.nodes@, leaf, left_arc));
    assert(arc_linked_but(q0, b0.nodes@, leaf, right_arc));
    assert(left_arc != leaf && right_arc != leaf && left_arc != right_arc);
    assert(b0.nodes@[left_arc as int].item is Leaf);
    assert(b0.nodes@[right_arc as int].item is Leaf);
    assert forall|m: usize| m < b.nodes@.len() implies #[trigger] arc_linked(q, b.nodes@, m) by {
        assert(arc_linked_but(q0, b0.nodes@, leaf, m));
        assert(pending_event(deleted, m) == pending_event(b0.nodes@, m));
        if m == leaf {
            assert(pending_event(c1, m) is None);
            assert(pending_event(c3, m) is None);
            assert(pending_event(traced, m) is None);
            assert(pending_event(first, m) is None);
        } else if m == left_arc {
            assert(pending_event(c2, m) is None);
            assert(pending_event(c3, m) is None);
            assert(pending_event(traced, m) is None);
            if left is Some {
                assert(pending_event(first, m) == Some(id));
                assert(e3.dom().contains(id) && removes(e3[id], m));
            } else {
                assert(pending_event(first, m) is None);
            }
        } else if m == right_arc {
            assert(pending_event(c3, m) is None);
            assert(pending_event(traced, m) is None);
            assert(pending_event(first, m) is None);
        } else {
            assert(pending_event(c3, m) == pending_event(b0.nodes@, m));
            assert(pending_event(traced, m) == pending_event(c3, m) || pending_event(traced, m) is None);
            assert(pending_event(first, m) == pending_event(traced, m));
            if let Some(x) = pending_event(b.nodes@, m) {
                assert(pending_event(b0.nodes@, m) == Some(x));
                assert(q0@.dom().contains(x) && removes(q0@[x], m));
                assert(e2.dom().contains(x) && e2[x] == q0@[x]);
                assert(e3.dom().contains(x) && e3[x] == q0@[x]);
            }
        }
    }
}

/// A site event leaves the fans round the vertices as they are, and every
/// vertex live.
pub proof fn lemma_site_keeps_fans<K: Kernel>(
    kernel: &K,
    site: Point,
    q0: EventQueue,
    b0: BeachLine,
    d0: DCEL,
    q: EventQueue,
    b: BeachLine,
    d: DCEL,
)
    requires
        d0.wf(),
        d0.fans(),
        d0.vertices_live(),
        site_handled(kernel, site, q0, b0, d0, q, b, d),
    ensures
        d.fans(),
        d.vertices_live(),
{
    if b0.order@.len() != 0 {
        let (arc, left, right) = choose|arc: usize, left: Option<(Point, u64)>, right: Option<(Point, u64)>| #[trigger]
            site_split(kernel, site, q0, b0, d0, q, b, d, arc, left, right);
        assert forall|x: int| 0 <= x < d0.halfedges@.len() implies #[trigger] twin_ok(d0.halfedges@, x) by {}
        lemma_twins_keep_fans(d0.halfedges@, d.halfedges@, d0.vertices@);
    }
}

/// A circle event gives the new vertex a fan of three, leaves the other
/// fans as they are, and every vertex live.
pub proof fn lemma_circle_keeps_fans(b0: BeachLine, d0: DCEL, d: DCEL, leaf: usize, center: Point)
    requires
        b0.wf(),
        d0.wf(),
        d0.fans(),
        d0.vertices_live(),
        links_open(b0, d0),
        b0.is_arc(leaf),
        2 <= b0.place@[leaf as int],
        b0.place@[leaf as int] + 2 < b0.order@.len(),
        apart(b0, d0, leaf),
        d0.halfedges@.len() + 2 < NIL,
        d0.vertices@.len() + 1 < NIL,
        d.halfedges@ == joined(
            d0.halfedges@,
            d0.vertices@.len() as usize,
            edge_of(b0.nodes@, b0.order@[b0.place@[leaf as int] - 1]),
            edge_of(b0.nodes@, b0.order@[b0.place@[leaf as int] + 1]),
            edge_of(b0.nodes@, b0.nodes@[leaf as int].parent->0),
            edge_of(b0.nodes@, delete_other(b0, leaf)),
        ),
        d.vertices@ == d0.vertices@.push(
            Vertex { coordinates: center, incident_edge: d0.halfedges@.len() as usize, alive: true },
        ),
    ensures
        d.fans(),
        d.vertices_live(),
{
    let p = b0.place@[leaf as int];
    let he = d0.halfedges@;
    lemma_inner_arc(b0, leaf);
    b0.lemma_at_live(p - 1);
    b0.lemma_at_live(p + 1);
    let pred = b0.order@[p - 1];
    let succ = b0.order@[p + 1];
    let (back, tracer) = choose|back: Seq<int>, tracer: Seq<int>| #[trigger] open_with(b0, d0, back, tracer);
    assert(node_traced(b0, d0, tracer, pred));
    assert(node_traced(b0, d0, tracer, succ));
    let pe = edge_of(b0.nodes@, pred);
    let se = edge_of(b0.nodes@, succ);
    assert(origin_ok(he, tracer, pe as int));
    assert(origin_ok(he, tracer, se as int));
    assert forall|x: int| 0 <= x < he.len() implies #[trigger] twin_ok(he, x) by {}
    assert forall|x: int| 0 <= x < he.len() implies index_or_nil(
        (#[trigger] he[x]).origin,
        d0.vertices@.len() as int,
    ) by {
        assert(links_ok(he, x, d0.vertices@.len() as int, d0.faces@.len() as int));
    }
    lemma_join_keeps_fans(
        he,
        d0.vertices@,
        pe,
        se,
        edge_of(b0.nodes@, b0.nodes@[leaf as int].parent->0),
        edge_of(b0.nodes@, delete_other(b0, leaf)),
        center,
    );
    assert forall|v: int| 0 <= v < d.vertices@.len() implies (#[trigger] d.vertices@[v]).alive by {
        if v < d0.vertices@.len() {
            assert(d.vertices@[v] == d0.vertices@[v]);
        }
    }
}

/// The state of the sweep: the queue, the beachline and the edge list.
pub type SweepState = (EventQueue, BeachLine, DCEL);

/// Is the second state what one step of the sweep makes of the first: the
/// pending event `id`, before which the sweep meets no other, leaves the
/// queue, and is handled as a site event or as a circle event, as its kind
/// asks?
pub open spec fn step_with<K: Kernel>(
    kernel: &K,
    before: SweepState,
    after: SweepState,
    id: usize,
    popped: EventQueue,
    left: Option<(Point, u64)>,
    right: Option<(Point, u64)>,
) -> bool {
    &&& before.0@.dom().contains(id)
    &&& forall|other: usize|
        before.0@.dom().contains(other) ==> !comes_before(#[trigger] before.0@[other], before.0@[id])
    &&& popped@ == before.0@.remove(id)
    &&& popped.next_event_id == before.0.next_event_id
    &&& match before.0@[id] {
        VoronoiEvent::Site(pt) => site_handled(kernel, pt, popped, before.1, before.2, after.0, after.1, after.2),
        VoronoiEvent::Circle(center, _, leaf) => circle_handled(
            kernel,
            leaf,
            center,
            popped,
            before.1,
            before.2,
            after.0,
            after.1,
            after.2,
            left,
            right,
        ),
    }
}

/// Is the second state what one step of the sweep makes of the first?
pub open spec fn sweep_step<K: Kernel>(kernel: &K, before: SweepState, after: SweepState) -> bool {
    exists|id: usize, popped: EventQueue, left: Option<(Point, u64)>, right: Option<(Point, u64)>| #[trigger]
        step_with(kernel, before, after, id, popped, left, right)
}

/// Does the state meet the invariant of the sweep, and is every event that
/// an arc names pending?
pub open spec fn settled(state: SweepState) -> bool {
    &&& sweep_wf(state.0, state.1, state.2)
    &&& arcs_linked(state.0, state.1)
}

/// Each state of the trace after the one at place `i` comes of the one
/// before it by one step of the sweep.
pub open spec fn step_at<K: Kernel>(kernel: &K, trace: Seq<SweepState>, i: int) -> bool {
    sweep_step(kernel, trace[i], trace[i + 1])
}

/// The state in which the sweep starts: the sites are pending, each under
/// the id that is its place among the sites, and the beachline and the edge
/// list are empty.
pub open spec fn sweep_start(sites: Seq<Point>, state: SweepState) -> bool {
    &&& state.0.next_event_id == sites.len()
    &&& state.0@ == Map::new(|id: usize| id < sites.len(), |id: usize| VoronoiEvent::Site(sites[id as int]))
    &&& state.1.order@.len() == 0
    &&& state.1.nodes@.len() == 0
    &&& state.2.halfedges@.len() == 0
    &&& state.2.vertices@.len() == 0
    &&& state.2.faces@.len() == 0
}

/// Is `trace` a run of the sweep over the sites: does it lead, step by
/// step, from the state in which the sweep starts to a state in which no
/// event is pending, through states that meet the invariant of the sweep?
pub open spec fn swept<K: Kernel>(kernel: &K, sites: Seq<Point>, trace: Seq<SweepState>) -> bool {
    &&& trace.len() > 0
    &&& sweep_start(sites, trace[0])
    &&& forall|i: int| 0 <= i < trace.len() - 1 ==> #[trigger] step_at(kernel, trace, i)
    &&& forall|i: int| 0 <= i < trace.len() ==> #[trigger] settled(trace[i])
    &&& trace.last().0@ == Map::<usize, VoronoiEvent>::empty()
}

/// Is `d` what the sweep over the sites gives: the edge list that a run of
/// the sweep leaves, closed off against the bounding rectangle and with its
/// faces made?
#[verifier::opaque]
pub open spec fn diagram_of<K: Kernel>(
    kernel: &K,
    sites: Seq<Point>,
    bounds: Bounds,
    trace: Seq<SweepState>,
    closed: DCEL,
    d: DCEL,
) -> bool {
    &&& swept(kernel, sites, trace)
    &&& closed_off(kernel, bounds, trace.last().1, trace.last().2, closed)
    &&& faces_added(closed, d)
    &&& d.faces_closed()
    &&& d.faces_cover()
    &&& d.faces_follow()
}

/// Labelling the faces leaves every live half-edge with its live origin.
proof fn lemma_faces_keep_origins(before: DCEL, after: DCEL)
    requires
        before.live_origins(),
        faces_added(before, after),
    ensures
        after.live_origins(),
{
    assert forall|x: int| 0 <= x < after.halfedges@.len() implies #[trigger] rooted_at(
        after.halfedges@,
        after.vertices@,
        x,
    ) by {
        assert(rooted_at(before.halfedges@, before.vertices@, x));
        assert(after.halfedges@[x].origin == before.halfedges@[x].origin);
        assert(after.halfedges@[x].alive == before.halfedges@[x].alive);
    }
}

/// Labelling the faces leaves `next` and `prev` undoing each other, every
/// half-edge with its origin, every live half-edge ending where its `next`
/// starts, and every vertex with an incident half-edge that starts at it.
proof fn lemma_faces_keep_links(before: DCEL, after: DCEL)
    requires
        before.wf(),
        before.links_closed(),
        before.origins_set(),
        before.chained(),
        before.anchored(),
        before.live_links(),
        faces_added(before, after),
    ensures
        after.links_closed(),
        after.origins_set(),
        after.chained(),
        after.anchored(),
        after.live_links(),
{
    assert forall|e: int| 0 <= e < after.halfedges@.len() && (#[trigger] after.halfedges@[e]).alive implies {
        &&& after.halfedges@[e].next < after.halfedges@.len()
        &&& after.halfedges@[e].prev < after.halfedges@.len()
        &&& after.halfedges@[after.halfedges@[e].next as int].alive
        &&& after.halfedges@[after.halfedges@[e].prev as int].alive
    } by {
        assert(before.halfedges@[e].alive);
        let nx = before.halfedges@[e].next as int;
        let pv = before.halfedges@[e].prev as int;
        assert(after.halfedges@[nx].alive == before.halfedges@[nx].alive);
        assert(after.halfedges@[pv].alive == before.halfedges@[pv].alive);
    }
    assert forall|v: int| 0 <= v < after.vertices@.len() implies (#[trigger] after.vertices@[v]).incident_edge
        < after.halfedges@.len() && after.halfedges@[after.vertices@[v].incident_edge as int].origin == v by {
        assert(before.vertices@[v].incident_edge < before.halfedges@.len());
        let s = before.vertices@[v].incident_edge as int;
        assert(after.halfedges@[s].origin == before.halfedges@[s].origin);
    }
    assert forall|e: int| 0 <= e < after.halfedges@.len() implies #[trigger] chained_at(after.halfedges@, e) by {
        assert(chained_at(before.halfedges@, e));
        assert(twin_ok(before.halfedges@, e));
        if before.halfedges@[e].alive {
            let t = before.halfedges@[e].twin;
            let nx = before.halfedges@[e].next;
            assert(after.halfedges@[e].twin == t);
            assert(after.halfedges@[e].next == nx);
            assert(after.halfedges@[nx as int].origin == before.halfedges@[nx as int].origin);
            assert(after.halfedges@[t as int].origin == before.halfedges@[t as int].origin);
        }
    }
    assert forall|e: int| 0 <= e < after.halfedges@.len() implies #[trigger] closed_at(after.halfedges@, e) by {
        assert(closed_at(before.halfedges@, e));
        assert(twin_ok(before.halfedges@, e));
        if before.halfedges@[e].alive {
            let t = before.halfedges@[e].twin;
            let nx = before.halfedges@[e].next;
            let pv = before.halfedges@[e].prev;
            assert(after.halfedges@[e].twin == t);
            assert(after.halfedges@[nx as int].prev == before.halfedges@[nx as int].prev);
            assert(after.halfedges@[pv as int].next == before.halfedges@[pv as int].next);
        }
    }
    assert forall|e: int| 0 <= e < after.halfedges@.len() implies (#[trigger] after.halfedges@[e]).origin
        < after.vertices@.len() by {
        assert(before.halfedges@[e].origin < before.vertices@.len());
    }
}

/// Computes the Voronoi diagram of a set of points.
/// Returns a Doubly Connected Edge List.
///
/// The diagram is cut to the rectangle of `bounds`. Without a site the
/// edge list is empty. Whatever the kernel answers, every state of the
/// sweep meets its invariant, and the edge list that comes of it is well
/// formed, `next` and `prev` undo each other along its boundaries, every
/// half-edge ends where the next one starts, the incident half-edge of
/// every vertex starts at the vertex, the `next` and the `prev` of a live
/// half-edge are live, a live half-edge starts at a live vertex, no live
/// vertex lies outside the limits that the kernel gave as the margin of
/// the rectangle, and the boundary of every face closes.
///
/// How many cells there are rests on the kernel. Sites at one height that
/// come first in the sweep are a case in which there is not one cell for
/// each site: every site splits the arc above it in three, also where the
/// site lies at the height of that arc's site, and the half-edges between
/// two such sites are both led to the same far point.
#[verifier::rlimit(60)]
pub fn voronoi<K: Kernel>(kernel: &K, points: Vec<Point>, bounds: Bounds) -> (d: DCEL)
    requires
        points@.len() <= MAX_SITES,
    ensures
        d.wf(),
        d.links_closed(),
        d.origins_set(),
        d.chained(),
        d.anchored(),
        d.live_links(),
        d.live_origins(),
        d.faces_closed(),
        d.faces_cover(),
        d.faces_follow(),
        d.boundaries_close(),
        points@.len() == 0 ==> d.halfedges@.len() == 0 && d.vertices@.len() == 0 && d.faces@.len() == 0,
        points@.len() > 0 ==> exists|trace: Seq<SweepState>, closed: DCEL| #[trigger]
            diagram_of(kernel, points@, bounds, trace, closed, d),
        points@.len() > 0 ==> exists|margin: Limits| #[trigger]
            call_ensures(K::inner_limits, (kernel, bounds), margin) && within(d.vertices@, margin),
{
    let mut event_queue = EventQueue::new();
    let mut beachline = BeachLine::new();
    let n = points.len();
    let ghost mut left: Set<usize> = Set::empty();
    let mut i: usize = 0;
    while i < n
        invariant
            i <= n,
            n == points@.len(),
            n <= MAX_SITES,
            event_queue.wf(),
            event_queue.next_event_id == i,
            left.finite(),
            left.len() == i,
            forall|id: usize| #[trigger] left.contains(id) == (id < i),
            forall|id: usize| #[trigger] event_queue@.dom().contains(id) == (id < i),
            forall|id: usize| id < i ==> #[trigger] event_queue@[id] == VoronoiEvent::Site(points@[id as int]),
        decreases n - i,
    {
        let pt = points[i];
        event_queue.push(VoronoiEvent::Site(pt));
        proof {
            left = left.insert(i);
        }
        i += 1;
    }
    let mut result = DCEL::new();
    if n == 0 {
        proof {
            assert forall|e: int| 0 <= e < result.halfedges@.len() implies #[trigger] closed_at(
                result.halfedges@,
                e,
            ) by {}
            assert forall|e: int| 0 <= e < result.halfedges@.len() implies #[trigger] chained_at(
                result.halfedges@,
                e,
            ) by {}
            assert forall|e: int| 0 <= e < result.halfedges@.len() implies #[trigger] rooted_at(
                result.halfedges@,
                result.vertices@,
                e,
            ) by {}
        }
        return result;
    }
    let ghost mut sites_done: nat = 0;
    let ghost mut circles_done: nat = 0;
    proof {
        assert forall|id: usize| event_queue@.dom().contains(id) implies #[trigger] arc_event_ok(
            event_queue,
            beachline,
            id,
        ) by {}
        assert forall|id: usize| event_queue@.dom().contains(id) implies #[trigger] site_id_ok(
            event_queue,
            id,
            n,
        ) by {}
        assert(open_with(beachline, result, Seq::<int>::empty(), Seq::<int>::empty()));
        assert forall|id: usize| event_queue@.dom().contains(id) implies #[trigger] event_apart(
            event_queue,
            beachline,
            result,
            id,
        ) by {}
        assert(event_queue@ =~= Map::new(
            |id: usize| id < points@.len(),
            |id: usize| VoronoiEvent::Site(points@[id as int]),
        ));
    }
    let ghost mut trace: Seq<SweepState> = seq![(event_queue, beachline, result)];
    proof {
        assert forall|m: usize| m < beachline.nodes@.len() implies #[trigger] arc_linked(
            event_queue,
            beachline.nodes@,
            m,
        ) by {}
        assert(settled(trace[0]));
        assert(fanned_with(result.halfedges@, result.vertices@, Seq::<nat>::empty(), 0));
    }

    loop
        invariant
            0 < n <= MAX_SITES,
            sweep_wf(event_queue, beachline, result),
            arcs_linked(event_queue, beachline),
            result.fans(),
            result.vertices_live(),
            site_ids(event_queue, n),
            arcs_name_circles(beachline, n),
            left.finite(),
            forall|id: usize| #[trigger] left.contains(id) == (id < n && event_queue@.dom().contains(id)),
            left.len() + sites_done == n,
            beachline.nodes@.len() == if sites_done == 0 {
                0
            } else {
                5 * sites_done - 4
            },
            beachline.order@.len() + 2 * circles_done == if sites_done == 0 {
                0
            } else {
                4 * sites_done - 3
            },
            result.halfedges@.len() == 2 * circles_done + if sites_done == 0 {
                0
            } else {
                2 * sites_done - 2
            },
            result.vertices@.len() == circles_done,
            result.faces@.len() == 0,
            n <= event_queue.next_event_id <= n + 2 * (sites_done + circles_done),
            trace.len() > 0,
            sweep_start(points@, trace[0]),
            trace.last().0@ == event_queue@,
            trace.last().0.next_event_id == event_queue.next_event_id,
            trace.last().1 == beachline,
            trace.last().2 == result,
            forall|i: int| 0 <= i < trace.len() - 1 ==> #[trigger] step_at(kernel, trace, i),
            forall|i: int| 0 <= i < trace.len() ==> #[trigger] settled(trace[i]),
        ensures
            sites_done == n,
            swept(kernel, points@, trace),
            trace.last().1 == beachline,
            trace.last().2 == result,
            sweep_wf(event_queue, beachline, result),
            result.fans(),
            result.vertices_live(),
            beachline.nodes@.len() == 5 * sites_done - 4,
            beachline.order@.len() + 2 * circles_done == 4 * sites_done - 3,
            result.halfedges@.len() == 2 * circles_done + 2 * sites_done - 2,
            result.vertices@.len() == circles_done,
            result.faces@.len() == 0,
        decreases left.len(), beachline.order@.len(),
    {
        let ghost q0 = event_queue;
        let ghost b0 = beachline;
        let ghost d0 = result;
        let ghost left0 = left;
        let this_event = match event_queue.pop() {
            Some(e) => e,
            None => {
                proof {
                    if left.len() > 0 {
                        let x = left.choose();
                        assert(left.contains(x));
                        assert(q0@.dom().contains(x));
                    }
                    assert(left.len() == 0);
                    assert(trace.last().0@ =~= Map::<usize, VoronoiEvent>::empty());
                    assert forall|m: usize| m < beachline.nodes@.len() implies #[trigger] arc_linked(
                        event_queue,
                        beachline.nodes@,
                        m,
                    ) by {
                        assert(arc_linked(q0, b0.nodes@, m));
                    }
                }
                break ;
            },
        };
        let ghost q1 = event_queue;
        let ghost id = choose|id: usize|
            {
                &&& #[trigger] q0@.dom().contains(id)
                &&& q0@[id] == this_event
                &&& q1@ == q0@.remove(id)
            };
        proof {
            assert(site_id_ok(q0, id, n));
            assert(arc_event_ok(q0, b0, id));
            assert forall|x: usize| q1@.dom().contains(x) implies #[trigger] arc_event_ok(q1, b0, x) by {
                assert(arc_event_ok(q0, b0, x));
            }
            assert forall|x: usize| q1@.dom().contains(x) implies #[trigger] site_id_ok(q1, x, n) by {
                assert(site_id_ok(q0, x, n));
            }
            assert forall|x: usize| q1@.dom().contains(x) implies #[trigger] event_apart(q1, b0, d0, x) by {
                assert(event_apart(q0, b0, d0, x));
            }
            assert(event_apart(q0, b0, d0, id));
            lemma_arcs_after_pop(q0, q1, b0, id);
        }

        let ghost run = trace;
        match this_event {
            VoronoiEvent::Site(pt) => {
                handle_site_event(kernel, pt, &mut event_queue, &mut beachline, &mut result);
                proof {
                    lemma_site_step(kernel, pt, q1, b0, d0, event_queue, beachline, result, n);
                    lemma_site_keeps_arcs(kernel, pt, q1, b0, d0, event_queue, beachline, result);
                    lemma_site_keeps_fans(kernel, pt, q1, b0, d0, event_queue, beachline, result);
                    left = left0.remove(id);
                    sites_done = sites_done + 1;
                    assert(step_with(kernel, run.last(), (event_queue, beachline, result), id, q1, None, None));
                }
            },
            VoronoiEvent::Circle(center, _, leaf) => {
                proof {
                    assert forall|x: usize| q1@.dom().contains(x) implies #[trigger] not_for(q1, x, leaf) by {
                        assert(arc_event_ok(q0, b0, x));
                    }
                }
                handle_circle_event(kernel, leaf, center, &mut event_queue, &mut beachline, &mut result);
                proof {
                    let (l, r) = choose|l: Option<(Point, u64)>, r: Option<(Point, u64)>| #[trigger]
                        circle_handled(
                            kernel,
                            leaf,
                            center,
                            q1,
                            b0,
                            d0,
                            event_queue,
                            beachline,
                            result,
                            l,
                            r,
                        );
                    lemma_circle_step(kernel, leaf, center, q1, b0, d0, event_queue, beachline, result, l, r, n);
                    lemma_circle_keeps_arcs(kernel, leaf, center, q1, b0, d0, event_queue, beachline, result, l, r);
                    lemma_circle_keeps_fans(b0, d0, result, leaf, center);
                    circles_done = circles_done + 1;
                    assert(step_with(kernel, run.last(), (event_queue, beachline, result), id, q1, l, r));
                }
            },
        }
        proof {
            trace = run.push((event_queue, beachline, result));
            assert(sweep_step(kernel, run.last(), trace.last()));
            assert forall|i: int| 0 <= i < trace.len() - 1 implies #[trigger] step_at(kernel, trace, i) by {
                if i < run.len() - 1 {
                    assert(step_at(kernel, run, i));
                    assert(trace[i] == run[i]);
                    assert(trace[i + 1] == run[i + 1]);
                } else {
                    assert(trace[i] == run.last());
                }
            }
            assert forall|i: int| 0 <= i < trace.len() implies #[trigger] settled(trace[i]) by {
                if i < run.len() {
                    assert(settled(run[i]));
                    assert(trace[i] == run[i]);
                }
            }
        }
    }
    add_bounding_box(kernel, bounds, &beachline, &mut result);
    let ghost closed = result;
    proof {
        DCEL::lemma_rings_close(closed);
    }
    add_faces(&mut result);
    proof {
        lemma_faces_keep_links(closed, result);
        lemma_faces_keep_origins(closed, result);
        reveal(diagram_of);
        assert(diagram_of(kernel, points@, bounds, trace, closed, result));
    }
    result
}

/// Is `moved` what relaxing the cells of the edge list `d` gives: for each
/// cell, in the order of `make_polygons`, the point that the kernel gave as
/// the centroid of its corners?
pub open spec fn relaxed<K: Kernel>(kernel: &K, d: DCEL, faces: Seq<Vec<Point>>, moved: Seq<Point>) -> bool {
    &&& corners(faces) == polygons(d)
    &&& moved.len() == faces.len()
    &&& forall|i: int|
        0 <= i < faces.len() ==> call_ensures(K::polygon_centroid, (kernel, &faces[i]), #[trigger] moved[i])
}

/// Produces the Lloyd Relaxation of a set of points.
///
/// Each point is moved to the centroid of its Voronoi cell.
pub fn lloyd_relaxation<K: Kernel>(kernel: &K, pts: Vec<Point>, bounds: Bounds) -> (moved: Vec<Point>)
    requires
        pts@.len() <= MAX_SITES,
    ensures
        pts@.len() == 0 ==> moved@.len() == 0,
        pts@.len() > 0 ==> exists|d: DCEL, faces: Seq<Vec<Point>>|
            {
                &&& #[trigger] relaxed(kernel, d, faces, moved@)
                &&& exists|trace: Seq<SweepState>, closed: DCEL| #[trigger]
                    diagram_of(kernel, pts@, bounds, trace, closed, d)
            },
{
    let ghost sites = pts@;
    let diagram = voronoi(kernel, pts, bounds);
    let faces = make_polygons(&diagram);
    let mut moved: Vec<Point> = Vec::new();
    let mut i: usize = 0;
    while i < faces.len()
        invariant
            i <= faces@.len(),
            moved@.len() == i,
            corners(faces@) == polygons(diagram),
            sites == pts@,
            sites.len() == 0 ==> diagram.faces@.len() == 0,
            sites.len() > 0 ==> exists|trace: Seq<SweepState>, closed: DCEL| #[trigger]
                diagram_of(kernel, sites, bounds, trace, closed, diagram),
            forall|j: int|
                0 <= j < i ==> call_ensures(K::polygon_centroid, (kernel, &faces@[j]), #[trigger] moved@[j]),
        decreases faces@.len() - i,
    {
        let centroid = kernel.polygon_centroid(&faces[i]);
        let ghost before = moved@;
        moved.push(centroid);
        proof {
            assert forall|j: int| 0 <= j < i + 1 implies call_ensures(
                K::polygon_centroid,
                (kernel, &faces@[j]),
                #[trigger] moved@[j],
            ) by {
                if j < i {
                    assert(moved@[j] == before[j]);
                }
            }
        }
        i += 1;
    }
    proof {
        if sites.len() == 0 {
            assert(polygons_upto(diagram, 0).len() == 0);
            assert(corners(faces@).len() == 0);
        } else {
            assert(relaxed(kernel, diagram, faces@, moved@));
        }
    }
    moved
}

} // verus!
