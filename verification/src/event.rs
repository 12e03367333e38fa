//! The events of the sweep and the queue that hands them out in sweep
//! order.
//!
//! The queue is a binary max-heap in two parallel arrays. A cancelled event
//! stays in the heap until it reaches the top, where it is dropped; the top
//! of the heap is never a cancelled event.

use crate::dcel::NIL;
use crate::point::point_lt;
use crate::point::Point;
use vstd::prelude::*;

verus! {

/// An event of the sweep.
#[derive(Clone, Copy, Debug)]
pub enum VoronoiEvent {
    /// The sweep line reaches a site.
    Site(Point),
    /// The sweep line reaches the far side of the circle through the sites
    /// of three neighbouring arcs: the centre of the circle, the y
    /// coordinate of the sweep line at that moment, and the arc that
    /// disappears.
    Circle(Point, u64, usize),
}

/// The point at which the sweep line meets an event.
pub open spec fn event_point(e: VoronoiEvent) -> Point {
    match e {
        VoronoiEvent::Site(pt) => pt,
        VoronoiEvent::Circle(center, y, _) => Point { x: center.x, y },
    }
}

/// Does the sweep meet `a` strictly before `b`? It meets first the event
/// whose point is last in the order of points.
pub open spec fn comes_before(a: VoronoiEvent, b: VoronoiEvent) -> bool {
    point_lt(event_point(b), event_point(a))
}

impl VoronoiEvent {
    /// The y coordinate of the sweep line at the event.
    pub fn get_y(&self) -> (y: u64)
        ensures
            y == event_point(*self).y,
    {
        match *self {
            VoronoiEvent::Site(pt) => pt.y(),
            VoronoiEvent::Circle(_, y, _) => y,
        }
    }

    /// The point at which the sweep line meets the event.
    pub fn point(&self) -> (p: Point)
        ensures
            p == event_point(*self),
    {
        match *self {
            VoronoiEvent::Site(pt) => pt,
            VoronoiEvent::Circle(center, y, _) => Point::new(center.x(), y),
        }
    }

    /// Does the sweep meet `self` strictly before `other`?
    pub fn before(&self, other: &VoronoiEvent) -> (r: bool)
        ensures
            r == comes_before(*self, *other),
    {
        other.point().before(&self.point())
    }
}

/// The node above `node` in the heap, `NIL` for the root.
pub fn parent(node: usize) -> (p: usize)
    ensures
        p == if node == NIL || node == 0 {
            NIL as int
        } else {
            (node - 1) / 2
        },
{
    if node == NIL || node == 0 {
        return NIL;
    }
    (node - 1) / 2
}

/// The first of the two nodes below `node` in the heap.
pub fn right_child(node: usize) -> (c: usize)
    requires
        2 * node + 1 <= usize::MAX,
    ensures
        c == 2 * node + 1,
{
    2 * node + 1
}

/// The second of the two nodes below `node` in the heap.
pub fn left_child(node: usize) -> (c: usize)
    requires
        2 * node + 2 <= usize::MAX,
    ensures
        c == 2 * node + 2,
{
    2 * node + 2
}

/// The queue of the events that the sweep has yet to meet.
pub struct EventQueue {
    /// The id that the next event will get.
    pub next_event_id: usize,
    /// The id of the event at each node of the heap.
    pub node_to_id: Vec<usize>,
    /// The event at each node of the heap.
    pub events: Vec<VoronoiEvent>,
    /// For each id given out so far, whether the event was cancelled.
    pub cancelled: Vec<bool>,
}

/// The event at node `j` is not met before the event at the node above it.
pub open spec fn heap_ok_at(events: Seq<VoronoiEvent>, j: int) -> bool {
    j > 0 ==> !comes_before(events[j], events[(j - 1) / 2])
}

/// No other node of the heap has the id of node `i`, which is an id that
/// has been given out.
pub open spec fn id_ok_at(ids: Seq<usize>, next_id: usize, i: int) -> bool {
    &&& ids[i] < next_id
    &&& forall|j: int| 0 <= j < ids.len() && j != i ==> #[trigger] ids[j] != ids[i]
}

impl EventQueue {
    /// The two arrays of the heap are equally long, and each node has an id
    /// of its own among those given out.
    pub open spec fn shape_ok(&self) -> bool {
        &&& self.node_to_id@.len() == self.events@.len()
        &&& self.cancelled@.len() == self.next_event_id
        &&& forall|i: int|
            0 <= i < self.node_to_id@.len() ==> #[trigger] id_ok_at(self.node_to_id@, self.next_event_id, i)
    }

    /// No event is met before the event at the node above it.
    pub open spec fn heap_ok(&self) -> bool {
        forall|j: int| 0 <= j < self.events@.len() ==> #[trigger] heap_ok_at(self.events@, j)
    }

    /// The event at the top of the heap has not been cancelled.
    pub open spec fn top_live(&self) -> bool {
        self.events@.len() > 0 ==> !self.cancelled@[self.node_to_id@[0] as int]
    }

    /// The invariant of the queue.
    pub open spec fn wf(&self) -> bool {
        &&& self.shape_ok()
        &&& self.heap_ok()
        &&& self.top_live()
    }

    /// Does the node `i` of the heap hold the pending event with this id?
    pub open spec fn holds(&self, i: int, id: usize) -> bool {
        &&& 0 <= i < self.node_to_id@.len()
        &&& self.node_to_id@[i] == id
        &&& id < self.cancelled@.len()
        &&& !self.cancelled@[id as int]
    }

    /// The pending events, each under its id.
    pub open spec fn view(&self) -> Map<usize, VoronoiEvent> {
        Map::new(
            |id: usize| exists|i: int| self.holds(i, id),
            |id: usize| self.events@[choose|i: int| self.holds(i, id)],
        )
    }

    /// Every pending event has an id that has been given out.
    pub proof fn lemma_pending_ids(&self)
        requires
            self.wf(),
        ensures
            forall|id: usize| #[trigger] self@.dom().contains(id) ==> id < self.next_event_id,
    {
        assert forall|id: usize| #[trigger] self@.dom().contains(id) implies id < self.next_event_id by {
            let i = choose|i: int| self.holds(i, id);
            assert(self.holds(i, id));
        }
    }

    /// An empty queue.
    pub fn new() -> (q: EventQueue)
        ensures
            q.wf(),
            q@ == Map::<usize, VoronoiEvent>::empty(),
            q.next_event_id == 0,
    {
        let q = EventQueue {
            next_event_id: 0,
            node_to_id: Vec::new(),
            events: Vec::new(),
            cancelled: Vec::new(),
        };
        proof {
            assert(q@ =~= Map::<usize, VoronoiEvent>::empty());
        }
        q
    }

    /// Is no event pending?
    pub fn is_empty(&self) -> (r: bool)
        requires
            self.wf(),
        ensures
            r == (self@.dom() =~= Set::<usize>::empty()),
            r == (self@ =~= Map::<usize, VoronoiEvent>::empty()),
    {
        proof {
            if self.events@.len() > 0 {
                assert(id_ok_at(self.node_to_id@, self.next_event_id, 0));
                assert(self.holds(0, self.node_to_id@[0]));
                assert(self@.dom().contains(self.node_to_id@[0]));
            } else {
                assert(self@ =~= Map::<usize, VoronoiEvent>::empty());
            }
        }
        self.events.len() == 0
    }

    /// The node that holds a pending event is the only one with its id.
    pub proof fn lemma_holds_unique(&self, i: int, id: usize)
        requires
            self.shape_ok(),
            self.holds(i, id),
        ensures
            self@.dom().contains(id),
            self@[id] == self.events@[i],
            forall|j: int| self.holds(j, id) ==> j == i,
    {
        assert(id_ok_at(self.node_to_id@, self.next_event_id, i));
        let k = choose|k: int| self.holds(k, id);
        assert(k == i);
    }

    /// Exchanges two nodes of the heap.
    fn swap(&mut self, node_a: usize, node_b: usize)
        requires
            old(self).shape_ok(),
            node_a < old(self).events@.len(),
            node_b < old(self).events@.len(),
        ensures
            final(self).shape_ok(),
            final(self)@ == old(self)@,
            final(self).next_event_id == old(self).next_event_id,
            final(self).cancelled@ == old(self).cancelled@,
            final(self).events@ == old(self).events@.update(
                node_a as int,
                old(self).events@[node_b as int],
            ).update(node_b as int, old(self).events@[node_a as int]),
            final(self).node_to_id@ == old(self).node_to_id@.update(
                node_a as int,
                old(self).node_to_id@[node_b as int],
            ).update(node_b as int, old(self).node_to_id@[node_a as int]),
    {
        let id_a = self.node_to_id[node_a];
        let id_b = self.node_to_id[node_b];

        let event_a = self.events[node_a];
        let event_b = self.events[node_b];
        self.events.set(node_a, event_b);
        self.events.set(node_b, event_a);

        self.node_to_id.set(node_a, id_b);
        self.node_to_id.set(node_b, id_a);
        proof {
            let a = node_a as int;
            let b = node_b as int;
            let turn = |i: int|
                if i == a {
                    b
                } else if i == b {
                    a
                } else {
                    i
                };
            assert forall|i: int| 0 <= i < self.node_to_id@.len() implies #[trigger] id_ok_at(
                self.node_to_id@,
                self.next_event_id,
                i,
            ) by {
                assert(id_ok_at(old(self).node_to_id@, self.next_event_id, turn(i)));
                assert forall|j: int| 0 <= j < self.node_to_id@.len() && j != i implies #[trigger] self.node_to_id@[j]
                    != self.node_to_id@[i] by {
                    assert(old(self).node_to_id@[turn(j)] != old(self).node_to_id@[turn(i)]);
                }
            }
            assert forall|id: usize| #[trigger]
                self@.dom().contains(id) == old(self)@.dom().contains(id) && (self@.dom().contains(id)
                    ==> self@[id] == old(self)@[id]) by {
                if self@.dom().contains(id) {
                    let i = choose|i: int| self.holds(i, id);
                    assert(old(self).holds(turn(i), id));
                    old(self).lemma_holds_unique(turn(i), id);
                    self.lemma_holds_unique(i, id);
                }
                if old(self)@.dom().contains(id) {
                    let i = choose|i: int| old(self).holds(i, id);
                    assert(self.holds(turn(i), id));
                }
            }
            assert(self@ =~= old(self)@);
        }
    }

    /// Every node but `hole` is in order with the node above it, and the
    /// nodes below `hole` are in order with the node above `hole`.
    pub open spec fn heap_but_up(events: Seq<VoronoiEvent>, hole: int) -> bool {
        &&& forall|j: int| 0 <= j < events.len() && j != hole ==> #[trigger] heap_ok_at(events, j)
        &&& hole > 0 ==> forall|c: int|
            0 <= c < events.len() && (c - 1) / 2 == hole && c > 0 ==> !comes_before(
                #[trigger] events[c],
                events[(hole - 1) / 2],
            )
    }

    /// Every node is in order with the node above it but the nodes below
    /// `hole`, which are in order with the node above `hole`.
    pub open spec fn heap_but_down(events: Seq<VoronoiEvent>, hole: int) -> bool {
        &&& forall|j: int|
            0 <= j < events.len() && !(j > 0 && (j - 1) / 2 == hole) ==> #[trigger] heap_ok_at(events, j)
        &&& hole > 0 ==> forall|c: int|
            0 <= c < events.len() && (c - 1) / 2 == hole && c > 0 ==> !comes_before(
                #[trigger] events[c],
                events[(hole - 1) / 2],
            )
    }

    /// Moves the bubble up to its place, where the only violation of the
    /// heap property is that the bubble might come before nodes above it.
    fn bubble_up(&mut self, bubble_node: usize)
        requires
            old(self).shape_ok(),
            bubble_node < old(self).events@.len(),
            Self::heap_but_up(old(self).events@, bubble_node as int),
        ensures
            final(self).shape_ok(),
            final(self).heap_ok(),
            final(self)@ == old(self)@,
            final(self).next_event_id == old(self).next_event_id,
            final(self).cancelled@ == old(self).cancelled@,
            final(self).events@.len() == old(self).events@.len(),
            final(self).node_to_id@[0] == old(self).node_to_id@[0] || final(self).node_to_id@[0] == old(self).node_to_id@[bubble_node as int],
    {
        let mut current_bubble = bubble_node;
        let len = self.events.len();
        loop
            invariant
                self.shape_ok(),
                old(self).shape_ok(),
                len == self.events@.len(),
                current_bubble < self.events@.len(),
                bubble_node < old(self).events@.len(),
                self.node_to_id@[current_bubble as int] == old(self).node_to_id@[bubble_node as int],
                self.node_to_id@[0] == old(self).node_to_id@[0] || current_bubble == 0,
                Self::heap_but_up(self.events@, current_bubble as int),
                self@ == old(self)@,
                self.next_event_id == old(self).next_event_id,
                self.cancelled@ == old(self).cancelled@,
                self.events@.len() == old(self).events@.len(),
            ensures
                self.shape_ok(),
                self.heap_ok(),
                self@ == old(self)@,
                self.next_event_id == old(self).next_event_id,
                self.cancelled@ == old(self).cancelled@,
                self.events@.len() == old(self).events@.len(),
                self.node_to_id@[0] == old(self).node_to_id@[0] || self.node_to_id@[0] == old(self).node_to_id@[bubble_node as int],
            decreases current_bubble,
        {
            let current_parent = parent(current_bubble);
            if current_parent == NIL {
                proof {
                    assert(heap_ok_at(self.events@, 0));
                }
                break ;
            }
            if !self.events[current_bubble].before(&self.events[current_parent]) {
                proof {
                    assert(heap_ok_at(self.events@, current_bubble as int));
                }
                break ;
            }
            let ghost before = self.events@;
            self.swap(current_bubble, current_parent);
            proof {
                Self::lemma_up_step(before, self.events@, current_bubble as int);
            }
            current_bubble = current_parent;
        }
    }

    /// Exchanging a node that is met before the node above it with that
    /// node moves the only place that may be out of order one level up.
    proof fn lemma_up_step(before: Seq<VoronoiEvent>, after: Seq<VoronoiEvent>, hole: int)
        requires
            0 < hole < before.len(),
            Self::heap_but_up(before, hole),
            comes_before(before[hole], before[(hole - 1) / 2]),
            after == before.update(hole, before[(hole - 1) / 2]).update((hole - 1) / 2, before[hole]),
        ensures
            Self::heap_but_up(after, (hole - 1) / 2),
    {
        let p = (hole - 1) / 2;
        assert forall|j: int| 0 <= j < after.len() && j != p implies #[trigger] heap_ok_at(after, j) by {
            if j > 0 {
                let q = (j - 1) / 2;
                if j == hole {
                    crate::point::lemma_point_order_total(
                        event_point(before[hole]),
                        event_point(before[p]),
                        event_point(before[p]),
                    );
                } else if q == p {
                    assert(heap_ok_at(before, j));
                    lemma_not_before_transitive(before[hole], before[p], before[j]);
                    crate::point::lemma_point_order_total(
                        event_point(before[hole]),
                        event_point(before[p]),
                        event_point(before[p]),
                    );
                } else if q == hole {
                    assert(!comes_before(before[j], before[p]));
                } else {
                    assert(heap_ok_at(before, j));
                }
            }
        }
        if p > 0 {
            assert forall|c: int| 0 <= c < after.len() && (c - 1) / 2 == p && c > 0 implies !comes_before(
                #[trigger] after[c],
                after[(p - 1) / 2],
            ) by {
                assert(heap_ok_at(before, p));
                if c == hole {
                } else {
                    assert(heap_ok_at(before, c));
                    lemma_not_before_transitive(before[(p - 1) / 2], before[p], before[c]);
                }
            }
        }
    }

    /// Moves the bubble down to its place, where the only violation of the
    /// heap property is that nodes below the bubble might come before it.
    fn bubble_down(&mut self, bubble_node: usize)
        requires
            old(self).shape_ok(),
            bubble_node < old(self).events@.len(),
            Self::heap_but_down(old(self).events@, bubble_node as int),
        ensures
            final(self).shape_ok(),
            final(self).heap_ok(),
            final(self)@ == old(self)@,
            final(self).next_event_id == old(self).next_event_id,
            final(self).cancelled@ == old(self).cancelled@,
            final(self).events@.len() == old(self).events@.len(),
    {
        let mut current_bubble = bubble_node;
        let len = self.events.len();
        loop
            invariant
                self.shape_ok(),
                len == self.events@.len(),
                current_bubble < len,
                Self::heap_but_down(self.events@, current_bubble as int),
                self@ == old(self)@,
                self.next_event_id == old(self).next_event_id,
                self.cancelled@ == old(self).cancelled@,
                self.events@.len() == old(self).events@.len(),
            ensures
                self.shape_ok(),
                self.heap_ok(),
                self@ == old(self)@,
                self.next_event_id == old(self).next_event_id,
                self.cancelled@ == old(self).cancelled@,
                self.events@.len() == old(self).events@.len(),
            decreases len - current_bubble,
        {
            let mut largest = current_bubble;
            if len >= 3 && current_bubble <= (len - 3) / 2 {
                let second = left_child(current_bubble);
                if self.events[second].before(&self.events[current_bubble]) {
                    largest = second;
                }
            }
            if len >= 2 && current_bubble <= (len - 2) / 2 {
                let first = right_child(current_bubble);
                if self.events[first].before(&self.events[largest]) {
                    largest = first;
                }
            }
            if largest == current_bubble {
                proof {
                    assert forall|j: int| 0 <= j < self.events@.len() implies #[trigger] heap_ok_at(
                        self.events@,
                        j,
                    ) by {
                        if j > 0 && (j - 1) / 2 == current_bubble {
                            assert(j == 2 * current_bubble + 1 || j == 2 * current_bubble + 2);
                        }
                    }
                }
                break ;
            }
            let ghost before = self.events@;
            self.swap(current_bubble, largest);
            proof {
                Self::lemma_down_step(before, self.events@, current_bubble as int, largest as int);
            }
            current_bubble = largest;
        }
    }

    /// Exchanging a node with the node below it that is met first moves
    /// the only place that may be out of order one level down.
    proof fn lemma_down_step(before: Seq<VoronoiEvent>, after: Seq<VoronoiEvent>, hole: int, below: int)
        requires
            0 <= hole < before.len(),
            0 < below < before.len(),
            (below - 1) / 2 == hole,
            Self::heap_but_down(before, hole),
            comes_before(before[below], before[hole]),
            forall|c: int|
                0 < c < before.len() && (c - 1) / 2 == hole ==> !comes_before(
                    #[trigger] before[c],
                    before[below],
                ),
            after == before.update(hole, before[below]).update(below, before[hole]),
        ensures
            Self::heap_but_down(after, below),
    {
        assert forall|j: int| 0 <= j < after.len() && !(j > 0 && (j - 1) / 2 == below) implies #[trigger] heap_ok_at(
            after,
            j,
        ) by {
            if j > 0 {
                let q = (j - 1) / 2;
                if j == below {
                    crate::point::lemma_point_order_total(
                        event_point(before[below]),
                        event_point(before[hole]),
                        event_point(before[hole]),
                    );
                } else if q == hole {
                    assert(!comes_before(before[j], before[below]));
                } else if j == hole {
                    assert(!comes_before(before[below], before[(hole - 1) / 2]));
                } else {
                    assert(heap_ok_at(before, j));
                }
            }
        }
        assert forall|c: int| 0 <= c < after.len() && (c - 1) / 2 == below && c > 0 implies !comes_before(
            #[trigger] after[c],
            after[(below - 1) / 2],
        ) by {
            assert(heap_ok_at(before, c));
        }
    }

    /// Adds an event to the queue. Returns the id under which the event can
    /// be cancelled.
    pub fn push(&mut self, event: VoronoiEvent) -> (event_id: usize)
        requires
            old(self).wf(),
            old(self).next_event_id < usize::MAX,
        ensures
            final(self).wf(),
            event_id == old(self).next_event_id,
            final(self).next_event_id == old(self).next_event_id + 1,
            final(self)@ == old(self)@.insert(event_id, event),
            !old(self)@.dom().contains(event_id),
    {
        let new_node_ind = self.events.len();
        self.events.push(event);

        // Make event_id
        let event_id = self.next_event_id;
        self.next_event_id += 1;
        self.node_to_id.push(event_id);
        self.cancelled.push(false);
        proof {
            assert forall|i: int| 0 <= i < self.node_to_id@.len() implies #[trigger] id_ok_at(
                self.node_to_id@,
                self.next_event_id,
                i,
            ) by {
                if i < new_node_ind {
                    assert(id_ok_at(old(self).node_to_id@, old(self).next_event_id, i));
                    assert(self.node_to_id@[i] == old(self).node_to_id@[i]);
                }
                assert forall|j: int| 0 <= j < self.node_to_id@.len() && j != i implies #[trigger] self.node_to_id@[j]
                    != self.node_to_id@[i] by {
                    if j < new_node_ind {
                        assert(id_ok_at(old(self).node_to_id@, old(self).next_event_id, j));
                    }
                }
            }
            assert forall|j: int| 0 <= j < self.events@.len() && j != new_node_ind implies #[trigger] heap_ok_at(
                self.events@,
                j,
            ) by {
                assert(heap_ok_at(old(self).events@, j));
            }
            assert forall|id: usize| #[trigger]
                self@.dom().contains(id) == old(self)@.insert(event_id, event).dom().contains(id) && (
                self@.dom().contains(id) ==> self@[id] == old(self)@.insert(event_id, event)[id]) by {
                if self@.dom().contains(id) {
                    let i = choose|i: int| self.holds(i, id);
                    self.lemma_holds_unique(i, id);
                    if i < new_node_ind {
                        assert(id_ok_at(old(self).node_to_id@, old(self).next_event_id, i));
                        assert(old(self).holds(i, id));
                        old(self).lemma_holds_unique(i, id);
                    }
                }
                if old(self)@.dom().contains(id) {
                    let i = choose|i: int| old(self).holds(i, id);
                    assert(self.holds(i, id));
                    self.lemma_holds_unique(i, id);
                    old(self).lemma_holds_unique(i, id);
                }
                if id == event_id {
                    assert(self.holds(new_node_ind as int, id));
                    self.lemma_holds_unique(new_node_ind as int, id);
                }
            }
            assert(self@ =~= old(self)@.insert(event_id, event));
            if old(self)@.dom().contains(event_id) {
                let i = choose|i: int| old(self).holds(i, event_id);
                assert(id_ok_at(old(self).node_to_id@, old(self).next_event_id, i));
            }
        }
        let ghost pushed = *self;
        self.bubble_up(new_node_ind);
        proof {
            assert(id_ok_at(self.node_to_id@, self.next_event_id, 0));
            if new_node_ind > 0 {
                assert(pushed.node_to_id@[0] == old(self).node_to_id@[0]);
                assert(id_ok_at(old(self).node_to_id@, old(self).next_event_id, 0));
            }
            assert(pushed.node_to_id@[new_node_ind as int] == event_id);
        }
        event_id
    }

    /// Takes the event at the top out of the heap, cancelled or not.
    /// Returns the event and its id.
    fn remove_top(&mut self) -> (top: (VoronoiEvent, usize))
        requires
            old(self).shape_ok(),
            old(self).heap_ok(),
            old(self).events@.len() > 0,
        ensures
            final(self).shape_ok(),
            final(self).heap_ok(),
            final(self).next_event_id == old(self).next_event_id,
            final(self).cancelled@ == old(self).cancelled@,
            final(self).events@.len() == old(self).events@.len() - 1,
            top.0 == old(self).events@[0],
            top.1 == old(self).node_to_id@[0],
            final(self)@ == old(self)@.remove(top.1),
    {
        let heapsize = self.events.len() - 1;
        self.swap(0, heapsize);
        let ghost swapped = *self;
        let result = self.events.pop().unwrap();
        let id = self.node_to_id.pop().unwrap();
        proof {
            assert forall|i: int| 0 <= i < self.node_to_id@.len() implies #[trigger] id_ok_at(
                self.node_to_id@,
                self.next_event_id,
                i,
            ) by {
                assert(id_ok_at(swapped.node_to_id@, swapped.next_event_id, i));
                assert forall|j: int| 0 <= j < self.node_to_id@.len() && j != i implies #[trigger] self.node_to_id@[j]
                    != self.node_to_id@[i] by {
                    assert(swapped.node_to_id@[j] != swapped.node_to_id@[i]);
                }
            }
            assert(id_ok_at(swapped.node_to_id@, swapped.next_event_id, heapsize as int));
            assert forall|key: usize| #[trigger]
                self@.dom().contains(key) == swapped@.remove(id).dom().contains(key) && (
                self@.dom().contains(key) ==> self@[key] == swapped@.remove(id)[key]) by {
                if self@.dom().contains(key) {
                    let i = choose|i: int| self.holds(i, key);
                    self.lemma_holds_unique(i, key);
                    assert(swapped.holds(i, key));
                    swapped.lemma_holds_unique(i, key);
                    assert(swapped.node_to_id@[i] != swapped.node_to_id@[heapsize as int]);
                }
                if swapped@.dom().contains(key) && key != id {
                    let i = choose|i: int| swapped.holds(i, key);
                    swapped.lemma_holds_unique(i, key);
                    assert(self.holds(i, key));
                    self.lemma_holds_unique(i, key);
                }
            }
            assert(self@ =~= swapped@.remove(id));
            if self.events@.len() > 0 {
                assert forall|j: int|
                    0 <= j < self.events@.len() && !(j > 0 && (j - 1) / 2 == 0) implies #[trigger] heap_ok_at(
                    self.events@,
                    j,
                ) by {
                    if j > 0 {
                        assert(heap_ok_at(old(self).events@, j));
                    }
                }
            }
        }
        if self.events.len() > 0 {
            self.bubble_down(0);
        }
        (result, id)
    }

    /// Drops cancelled events from the top of the heap until the top is
    /// an event that is pending, or the heap is empty.
    fn purge(&mut self)
        requires
            old(self).shape_ok(),
            old(self).heap_ok(),
        ensures
            final(self).wf(),
            final(self)@ == old(self)@,
            final(self).next_event_id == old(self).next_event_id,
            final(self).cancelled@ == old(self).cancelled@,
    {
        while self.events.len() > 0 && self.top_cancelled()
            invariant
                self.shape_ok(),
                self.heap_ok(),
                self@ == old(self)@,
                self.next_event_id == old(self).next_event_id,
                self.cancelled@ == old(self).cancelled@,
            decreases self.events@.len(),
        {
            proof {
                let id = self.node_to_id@[0];
                if self@.dom().contains(id) {
                    let i = choose|i: int| self.holds(i, id);
                }
                assert(self@.remove(id) =~= self@);
            }
            self.remove_top();
        }
    }

    /// Has the event at the top of the heap been cancelled?
    fn top_cancelled(&self) -> (r: bool)
        requires
            self.shape_ok(),
            self.events@.len() > 0,
        ensures
            r == self.cancelled@[self.node_to_id@[0] as int],
    {
        proof {
            assert(id_ok_at(self.node_to_id@, self.next_event_id, 0));
        }
        self.cancelled[self.node_to_id[0]]
    }

    /// Takes the pending event that the sweep meets first out of the
    /// queue; nothing if no event is pending.
    pub fn pop(&mut self) -> (r: Option<VoronoiEvent>)
        requires
            old(self).wf(),
        ensures
            final(self).wf(),
            final(self).next_event_id == old(self).next_event_id,
            old(self)@.dom() =~= Set::<usize>::empty() ==> r is None && final(self)@ == old(self)@,
            r is None ==> old(self)@.dom() =~= Set::<usize>::empty(),
            r matches Some(event) ==> exists|id: usize|
                {
                    &&& #[trigger] old(self)@.dom().contains(id)
                    &&& old(self)@[id] == event
                    &&& final(self)@ == old(self)@.remove(id)
                    &&& forall|other: usize|
                        old(self)@.dom().contains(other) ==> !comes_before(
                            #[trigger] old(self)@[other],
                            event,
                        )
                },
    {
        if self.is_empty() {
            return None;
        }
        proof {
            let id = self.node_to_id@[0];
            assert(id_ok_at(self.node_to_id@, self.next_event_id, 0));
            assert(self.holds(0, id));
            self.lemma_holds_unique(0, id);
            assert forall|other: usize| self@.dom().contains(other) implies !comes_before(
                #[trigger] self@[other],
                self.events@[0],
            ) by {
                let i = choose|i: int| self.holds(i, other);
                self.lemma_holds_unique(i, other);
                lemma_root_first(self.events@, i);
            }
        }
        let (result, id) = self.remove_top();
        self.purge();
        Some(result)
    }

    /// Cancels the event with this id, if it is pending.
    pub fn remove(&mut self, event_id: usize)
        requires
            old(self).wf(),
        ensures
            final(self).wf(),
            final(self).next_event_id == old(self).next_event_id,
            final(self)@ == old(self)@.remove(event_id),
    {
        if event_id < self.cancelled.len() {
            self.cancelled.set(event_id, true);
        }
        proof {
            assert forall|i: int| 0 <= i < self.node_to_id@.len() implies #[trigger] id_ok_at(
                self.node_to_id@,
                self.next_event_id,
                i,
            ) by {
                assert(id_ok_at(old(self).node_to_id@, old(self).next_event_id, i));
            }
            assert forall|j: int| 0 <= j < self.events@.len() implies #[trigger] heap_ok_at(self.events@, j) by {
                assert(heap_ok_at(old(self).events@, j));
            }
            assert forall|key: usize| #[trigger]
                self@.dom().contains(key) == old(self)@.remove(event_id).dom().contains(key) && (
                self@.dom().contains(key) ==> self@[key] == old(self)@.remove(event_id)[key]) by {
                if self@.dom().contains(key) {
                    let i = choose|i: int| self.holds(i, key);
                    self.lemma_holds_unique(i, key);
                    assert(old(self).holds(i, key));
                    old(self).lemma_holds_unique(i, key);
                }
                if old(self)@.dom().contains(key) && key != event_id {
                    let i = choose|i: int| old(self).holds(i, key);
                    old(self).lemma_holds_unique(i, key);
                    assert(self.holds(i, key));
                    self.lemma_holds_unique(i, key);
                }
            }
            assert(self@ =~= old(self)@.remove(event_id));
        }
        self.purge();
    }
}

/// In the sweep order of events, what is not before a second event that is
/// not before a third is not before the third.
pub proof fn lemma_not_before_transitive(a: VoronoiEvent, b: VoronoiEvent, c: VoronoiEvent)
    requires
        !comes_before(b, a),
        !comes_before(c, b),
    ensures
        !comes_before(c, a),
{
    crate::point::lemma_point_order_total(event_point(a), event_point(b), event_point(c));
    crate::point::lemma_point_order_total(event_point(c), event_point(b), event_point(a));
    crate::point::lemma_point_order_total(event_point(a), event_point(c), event_point(b));
}

/// In a heap, no event is met before the event at the root.
pub proof fn lemma_root_first(events: Seq<VoronoiEvent>, j: int)
    requires
        forall|k: int| 0 <= k < events.len() ==> #[trigger] heap_ok_at(events, k),
        0 <= j < events.len(),
    ensures
        !comes_before(events[j], events[0]),
    decreases j,
{
    if j > 0 {
        assert(heap_ok_at(events, j));
        lemma_root_first(events, (j - 1) / 2);
        lemma_not_before_transitive(events[0], events[(j - 1) / 2], events[j]);
    } else {
        crate::point::lemma_point_order_total(event_point(events[0]), event_point(events[0]), event_point(events[0]));
    }
}

} // verus!
