//! The doubly connected edge list: vertices, half-edges and faces of a
//! subdivision of the plane, each kind in an arena of its own and linked by
//! index.

use crate::kernel::Kernel;
use crate::kernel::Segment;
use crate::point::point_lt;
use crate::point::Point;
use vstd::prelude::*;

verus! {

/// The index that stands for "no item".
pub const NIL: usize = usize::MAX;

/// A vertex of a DCEL
#[derive(Clone, Copy, Debug)]
pub struct Vertex {
    /// (x, y) coordinates
    pub coordinates: Point,
    /// Some halfedge having this vertex as the origin
    pub incident_edge: usize,
    /// False if the vertex has been deleted
    pub alive: bool,
}

/// A halfedge of a DCEL
#[derive(Clone, Copy, Debug)]
pub struct HalfEdge {
    /// The index of the vertex at the start of the halfedge
    pub origin: usize,
    /// The index of the twin halfedge
    pub twin: usize,
    /// The index of the next halfedge
    pub next: usize,
    /// The index of the face to the left of the halfedge
    pub face: usize,
    /// The index of the previous halfedge
    pub prev: usize,
    /// False if the halfedge has been deleted
    pub alive: bool,
}

impl HalfEdge {
    /// Construct an empty halfedge
    pub fn new() -> (he: HalfEdge)
        ensures
            he == (HalfEdge { origin: NIL, twin: NIL, next: NIL, face: NIL, prev: NIL, alive: true }),
    {
        HalfEdge { origin: NIL, twin: NIL, next: NIL, face: NIL, prev: NIL, alive: true }
    }
}

/// A face of a DCEL
#[derive(Clone, Copy, Debug)]
pub struct Face {
    /// The index of one halfedge on the boundary of the face
    pub outer_component: usize,
    /// False if the face has been deleted
    pub alive: bool,
}

impl Face {
    /// Construct a new face, given an attached halfedge index
    pub fn new(edge: usize) -> (f: Face)
        ensures
            f == (Face { outer_component: edge, alive: true }),
    {
        Face { outer_component: edge, alive: true }
    }
}

/// Doubly Connected Edge List representation of a subdivision of the plane.
pub struct DCEL {
    /// Vertices
    pub vertices: Vec<Vertex>,
    /// Halfedges
    pub halfedges: Vec<HalfEdge>,
    /// Faces
    pub faces: Vec<Face>,
}

/// Is `i` an index into an arena of length `len`, or `NIL`?
pub open spec fn index_or_nil(i: usize, len: int) -> bool {
    i == NIL || i < len
}

/// The half-edge `e` has a twin other than itself, whose twin it is.
pub open spec fn twin_ok(he: Seq<HalfEdge>, e: int) -> bool {
    &&& he[e].twin < he.len()
    &&& he[e].twin != e
    &&& he[he[e].twin as int].twin == e
}

/// If the half-edge `e` is live, then so is its twin, and `e` is the `prev`
/// of its `next` and the `next` of its `prev`.
pub open spec fn closed_at(he: Seq<HalfEdge>, e: int) -> bool {
    he[e].alive ==> {
        &&& he[he[e].twin as int].alive
        &&& he[e].next < he.len()
        &&& he[e].prev < he.len()
        &&& he[he[e].next as int].prev == e
        &&& he[he[e].prev as int].next == e
    }
}

/// Each link of the half-edge `e` is `NIL` or the index of an item that
/// exists, among `vertices` vertices and `faces` faces.
pub open spec fn links_ok(he: Seq<HalfEdge>, e: int, vertices: int, faces: int) -> bool {
    &&& index_or_nil(he[e].origin, vertices)
    &&& index_or_nil(he[e].next, he.len() as int)
    &&& index_or_nil(he[e].prev, he.len() as int)
    &&& index_or_nil(he[e].face, faces)
}

/// The half-edge reached from `e` in `k` steps along `next`; `NIL` once a
/// step has left the arena.
pub open spec fn walk_next(he: Seq<HalfEdge>, e: usize, k: nat) -> usize
    decreases k,
{
    if k == 0 {
        e
    } else {
        let m = walk_next(he, e, (k - 1) as nat);
        if m < he.len() {
            he[m as int].next
        } else {
            NIL
        }
    }
}

/// The half-edge reached from `e` in `k` steps around the origin of `e`,
/// each step leading from a half-edge to the `next` of its twin; `NIL` once
/// a step has left the arena.
pub open spec fn walk_around(he: Seq<HalfEdge>, e: usize, k: nat) -> usize
    decreases k,
{
    if k == 0 {
        e
    } else {
        let m = walk_around(he, e, (k - 1) as nat);
        if m < he.len() && he[m as int].twin < he.len() {
            he[he[m as int].twin as int].next
        } else {
            NIL
        }
    }
}

/// The walk along `next` from `e` is back at `e` after `k` steps, and not
/// before.
pub open spec fn cycle_of(he: Seq<HalfEdge>, e: usize, k: nat) -> bool {
    &&& 1 <= k
    &&& walk_next(he, e, k) == e
    &&& forall|j: nat| 0 < j < k ==> #[trigger] walk_next(he, e, j) != e
}

/// The walk around the origin of `e` is back at `e` after `k` steps, and
/// not before.
pub open spec fn fan_of(he: Seq<HalfEdge>, e: usize, k: nat) -> bool {
    &&& 1 <= k
    &&& walk_around(he, e, k) == e
    &&& forall|j: nat| 0 < j < k ==> #[trigger] walk_around(he, e, j) != e
}

/// A walk along `next` that has left the arena stays outside.
pub proof fn lemma_walk_next_out(he: Seq<HalfEdge>, e: usize, j: nat, k: nat)
    requires
        he.len() < NIL,
        j <= k,
        walk_next(he, e, j) >= he.len(),
    ensures
        walk_next(he, e, k) >= he.len(),
    decreases k,
{
    if k > j {
        lemma_walk_next_out(he, e, j, (k - 1) as nat);
    }
}

/// A walk around an origin that has left the arena stays outside.
pub proof fn lemma_walk_around_out(he: Seq<HalfEdge>, e: usize, j: nat, k: nat)
    requires
        he.len() < NIL,
        j <= k,
        walk_around(he, e, j) >= he.len(),
    ensures
        walk_around(he, e, k) >= he.len(),
    decreases k,
{
    if k > j {
        lemma_walk_around_out(he, e, j, (k - 1) as nat);
    }
}

/// Does the walk along `next` from `start` meet `e` within as many steps as
/// there are half-edges?
pub open spec fn on_cycle(he: Seq<HalfEdge>, start: usize, e: usize) -> bool {
    exists|j: nat| j < he.len() && #[trigger] walk_next(he, start, j) == e
}

/// Does the walk along `next` from `e` come back to `e` within as many steps
/// as there are half-edges?
pub open spec fn cycle_closes(he: Seq<HalfEdge>, e: usize) -> bool {
    exists|k: nat| k <= he.len() && #[trigger] cycle_of(he, e, k)
}

/// Two arenas with the same `next` links have the same walks.
pub proof fn lemma_walk_same_next(a: Seq<HalfEdge>, b: Seq<HalfEdge>, e: usize, k: nat)
    requires
        a.len() == b.len(),
        forall|x: int| 0 <= x < a.len() ==> (#[trigger] a[x]).next == b[x].next,
    ensures
        walk_next(a, e, k) == walk_next(b, e, k),
    decreases k,
{
    if k > 0 {
        lemma_walk_same_next(a, b, e, (k - 1) as nat);
    }
}

/// A walk that enters a set of half-edges closed under `next` stays in it.
pub proof fn lemma_walk_stays(he: Seq<HalfEdge>, inside: Seq<bool>, e: usize, i: nat, k: nat)
    requires
        inside.len() == he.len(),
        forall|x: int|
            0 <= x < he.len() && #[trigger] inside[x] ==> he[x].next < he.len() && inside[he[x].next as int],
        i <= k,
        walk_next(he, e, i) < he.len(),
        inside[walk_next(he, e, i) as int],
    ensures
        walk_next(he, e, k) < he.len(),
        inside[walk_next(he, e, k) as int],
    decreases k,
{
    if k > i {
        lemma_walk_stays(he, inside, e, i, (k - 1) as nat);
    }
}

/// Does the walk around the origin of `start` come back to `start` within
/// as many steps as there are half-edges?
pub open spec fn fan_closes(he: Seq<HalfEdge>, start: usize) -> bool {
    exists|k: nat| 1 <= k <= he.len() && #[trigger] walk_around(he, start, k) == start
}

/// The number of steps after which the walk around the origin of `start`
/// is first back at `start`.
pub open spec fn fan_len(he: Seq<HalfEdge>, start: usize) -> nat {
    choose|k: nat| #[trigger] fan_of(he, start, k)
}

/// The half-edges that the walk around the origin of `start` meets before
/// it is back at `start`.
pub open spec fn fan(he: Seq<HalfEdge>, start: usize) -> Seq<usize> {
    Seq::new(fan_len(he, start), |j: int| walk_around(he, start, j as nat))
}

/// The walk around an origin is first back at its start after one number
/// of steps only.
pub proof fn lemma_fan_len(he: Seq<HalfEdge>, start: usize, k: nat)
    requires
        fan_of(he, start, k),
    ensures
        fan_len(he, start) == k,
{
    let other = fan_len(he, start);
    assert(fan_of(he, start, other));
    if other < k {
        assert(walk_around(he, start, other) != start);
    }
    if k < other {
        assert(walk_around(he, start, k) != start);
    }
}

/// The half-edges after each half-edge of `list` that is still live has
/// been cut out, together with its twin, first to last.
pub open spec fn without_edges(he: Seq<HalfEdge>, list: Seq<usize>) -> Seq<HalfEdge>
    decreases list.len(),
{
    if list.len() == 0 {
        he
    } else {
        let rest = without_edges(he, list.drop_last());
        if rest[list.last() as int].alive {
            DCEL::without_edge(rest, list.last())
        } else {
            rest
        }
    }
}

/// What holds of the half-edge `x` where `back` undoes `next` and `tracer`
/// says which half-edges are unfinished: the half-edge is live; it is what
/// `back` gives for its `next`, and the `next` of what `back` gives for it;
/// it lacks a `next` exactly if its twin is unfinished, and `back` gives
/// nothing for it exactly if it is unfinished itself.
pub open spec fn link_ok(he: Seq<HalfEdge>, back: Seq<int>, tracer: Seq<int>, x: int) -> bool {
    &&& he[x].alive
    &&& he[x].next == NIL || (he[x].next < he.len() && back[he[x].next as int] == x)
    &&& back[x] == -1 || (0 <= back[x] < he.len() && he[back[x]].next == x)
    &&& (he[x].next == NIL) == (tracer[he[x].twin as int] != -1)
    &&& (back[x] == -1) == (tracer[x] != -1)
}

/// Leading from each half-edge to its `next` is a one-to-one mapping,
/// undone by `back`, from the half-edges whose twin is finished onto the
/// half-edges that are finished; `tracer` is other than -1 for the
/// unfinished ones.
pub open spec fn linked(he: Seq<HalfEdge>, back: Seq<int>, tracer: Seq<int>) -> bool {
    &&& back.len() == he.len()
    &&& tracer.len() == he.len()
    &&& forall|x: int| 0 <= x < he.len() ==> #[trigger] link_ok(he, back, tracer, x)
}

/// No half-edge is unfinished.
pub open spec fn no_tracer(n: nat) -> Seq<int> {
    Seq::new(n, |i: int| -1)
}

/// The half-edge `e` is unfinished, and no other.
pub open spec fn one_tracer(n: nat, e: int) -> Seq<int> {
    Seq::new(
        n,
        |i: int|
            if i == e {
                0
            } else {
                -1
            },
    )
}

/// What holds of the origin of the half-edge `x`: it is missing exactly if
/// the half-edge is unfinished; the `next` of the half-edge starts where its
/// twin starts; and the half-edge does not start where its twin starts.
pub open spec fn origin_ok(he: Seq<HalfEdge>, tracer: Seq<int>, x: int) -> bool {
    &&& (he[x].origin == NIL) == (tracer[x] != -1)
    &&& he[x].next != NIL ==> he[he[x].next as int].origin == he[he[x].twin as int].origin
    &&& he[x].origin != NIL && he[he[x].twin as int].origin != NIL ==> he[x].origin != he[he[x].twin as int].origin
}

/// What holds of the vertex `v`: its incident half-edge starts at it, and
/// either is the only half-edge that does, or ends at a vertex that was made
/// later, or at none yet.
pub open spec fn vertex_ok(he: Seq<HalfEdge>, vertices: Seq<Vertex>, v: int) -> bool {
    let s = vertices[v].incident_edge;
    let t = he[s as int].twin;
    &&& he[s as int].origin == v
    &&& (he[t as int].next == s || he[t as int].origin == NIL || he[t as int].origin > v)
}

/// The origins fit the links: `origin_ok` holds of every half-edge and
/// `vertex_ok` of every vertex.
pub open spec fn charted(he: Seq<HalfEdge>, vertices: Seq<Vertex>, tracer: Seq<int>) -> bool {
    &&& forall|x: int| 0 <= x < he.len() ==> #[trigger] origin_ok(he, tracer, x)
    &&& forall|v: int| 0 <= v < vertices.len() ==> #[trigger] vertex_ok(he, vertices, v)
}

impl DCEL {
    /// Every half-edge is live and has a `next`, and no two half-edges have
    /// the same `next`; every half-edge has an origin, and the origins fit
    /// the links.
    pub open spec fn next_bijective(&self) -> bool {
        &&& exists|back: Seq<int>| #[trigger] linked(self.halfedges@, back, no_tracer(self.halfedges@.len()))
        &&& charted(self.halfedges@, self.vertices@, no_tracer(self.halfedges@.len()))
    }

    /// Every half-edge is live; every half-edge but the twin of
    /// `needs_prev` has a `next`, and no two have the same; every half-edge
    /// but `needs_prev` is the `next` of one and has an origin, and the
    /// origins fit the links.
    pub open spec fn line_open(&self, needs_prev: usize) -> bool {
        &&& exists|back: Seq<int>| #[trigger]
            linked(self.halfedges@, back, one_tracer(self.halfedges@.len(), needs_prev as int))
        &&& charted(self.halfedges@, self.vertices@, one_tracer(self.halfedges@.len(), needs_prev as int))
    }
}

impl DCEL {
    /// Every half-edge has a twin other than itself, whose twin it is.
    pub open spec fn twins_paired(&self) -> bool {
        forall|e: int| 0 <= e < self.halfedges@.len() ==> #[trigger] twin_ok(self.halfedges@, e)
    }

    /// Every link is the index of an item that exists, or `NIL`.
    pub open spec fn links_in_range(&self) -> bool {
        &&& forall|e: int|
            0 <= e < self.halfedges@.len() ==> #[trigger] links_ok(
                self.halfedges@,
                e,
                self.vertices@.len() as int,
                self.faces@.len() as int,
            )
        &&& forall|v: int|
            0 <= v < self.vertices@.len() ==> (#[trigger] self.vertices@[v]).incident_edge
                < self.halfedges@.len()
        &&& forall|f: int|
            0 <= f < self.faces@.len() ==> (#[trigger] self.faces@[f]).outer_component
                < self.halfedges@.len()
    }

    /// The invariant of the edge list.
    pub open spec fn wf(&self) -> bool {
        &&& self.twins_paired()
        &&& self.links_in_range()
        &&& self.halfedges@.len() < NIL
        &&& self.vertices@.len() < NIL
        &&& self.faces@.len() < NIL
    }

    /// Construct an empty DCEL
    pub fn new() -> (d: DCEL)
        ensures
            d.wf(),
            d.vertices@.len() == 0,
            d.halfedges@.len() == 0,
            d.faces@.len() == 0,
    {
        DCEL { vertices: Vec::new(), halfedges: Vec::new(), faces: Vec::new() }
    }

    /// Add two halfedges that are twins
    pub fn add_twins(&mut self) -> (pair: (usize, usize))
        requires
            old(self).wf(),
            old(self).halfedges@.len() + 2 < NIL,
        ensures
            final(self).wf(),
            pair.0 == old(self).halfedges@.len(),
            pair.1 == pair.0 + 1,
            final(self).halfedges@ == old(self).halfedges@.push(
                HalfEdge { origin: NIL, twin: pair.1, next: NIL, face: NIL, prev: NIL, alive: true },
            ).push(HalfEdge { origin: NIL, twin: pair.0, next: NIL, face: NIL, prev: NIL, alive: true }),
            final(self).vertices@ == old(self).vertices@,
            final(self).faces@ == old(self).faces@,
    {
        let mut he1 = HalfEdge::new();
        let mut he2 = HalfEdge::new();

        let start_index = self.halfedges.len();
        he1.twin = start_index + 1;
        he2.twin = start_index;
        self.halfedges.push(he1);
        self.halfedges.push(he2);
        proof {
            assert forall|e: int| 0 <= e < self.halfedges@.len() implies #[trigger] twin_ok(
                self.halfedges@,
                e,
            ) by {
                if e < start_index {
                    assert(twin_ok(old(self).halfedges@, e));
                }
            }
            assert forall|e: int| 0 <= e < self.halfedges@.len() implies #[trigger] links_ok(
                self.halfedges@,
                e,
                self.vertices@.len() as int,
                self.faces@.len() as int,
            ) by {
                if e < start_index {
                    assert(links_ok(
                        old(self).halfedges@,
                        e,
                        self.vertices@.len() as int,
                        self.faces@.len() as int,
                    ));
                }
            }
        }
        (start_index, start_index + 1)
    }

    /// Get the origin of a halfedge by index
    pub fn get_origin(&self, edge: usize) -> (p: Point)
        requires
            edge < self.halfedges@.len(),
            self.halfedges@[edge as int].origin < self.vertices@.len(),
        ensures
            p == self.vertices@[self.halfedges@[edge as int].origin as int].coordinates,
    {
        let origin_ind = self.halfedges[edge].origin;
        self.vertices[origin_ind].coordinates
    }
    /// The half-edges after every half-edge has been entered as the `prev`
    /// of its `next`: the `prev` of `t` is the last half-edge whose `next` is
    /// `t`, and stays what it was if there is none.
    pub open spec fn prev_is_set(before: Seq<HalfEdge>, after: Seq<HalfEdge>) -> bool {
        &&& after.len() == before.len()
        &&& forall|t: int|
            0 <= t < before.len() ==> {
                &&& (#[trigger] after[t]).origin == before[t].origin
                &&& after[t].twin == before[t].twin
                &&& after[t].next == before[t].next
                &&& after[t].face == before[t].face
                &&& after[t].alive == before[t].alive
                &&& after[t].prev == before[t].prev || (after[t].prev < before.len()
                    && before[after[t].prev as int].next == t)
            }
        &&& forall|e: int, t: int|
            0 <= e < before.len() && 0 <= t < before.len() && (#[trigger] before[e]).next == t
                ==> e <= (#[trigger] after[t]).prev < before.len() && before[after[t].prev as int].next
                == t
        &&& forall|t: int|
            0 <= t < before.len() && (forall|e: int| 0 <= e < before.len() ==> (
            #[trigger] before[e]).next != t) ==> (#[trigger] after[t]).prev == before[t].prev
    }

    /// Set the previous edge of all halfedges
    pub fn set_prev(&mut self)
        requires
            old(self).wf(),
        ensures
            final(self).wf(),
            Self::prev_is_set(old(self).halfedges@, final(self).halfedges@),
            final(self).vertices@ == old(self).vertices@,
            final(self).faces@ == old(self).faces@,
            old(self).next_bijective() ==> final(self).links_closed() && final(self).on_rings(),
    {
        let n = self.halfedges.len();
        let mut edge_ind: usize = 0;
        while edge_ind < n
            invariant
                edge_ind <= n,
                n == old(self).halfedges@.len(),
                self.halfedges@.len() == n,
                self.vertices@ == old(self).vertices@,
                self.faces@ == old(self).faces@,
                old(self).wf(),
                forall|t: int|
                    0 <= t < n ==> {
                        &&& (#[trigger] self.halfedges@[t]).origin == old(self).halfedges@[t].origin
                        &&& self.halfedges@[t].twin == old(self).halfedges@[t].twin
                        &&& self.halfedges@[t].next == old(self).halfedges@[t].next
                        &&& self.halfedges@[t].face == old(self).halfedges@[t].face
                        &&& self.halfedges@[t].alive == old(self).halfedges@[t].alive
                        &&& self.halfedges@[t].prev == old(self).halfedges@[t].prev || (
                        self.halfedges@[t].prev < edge_ind && old(self).halfedges@[self.halfedges@[t].prev as int].next
                            == t)
                    },
                forall|e: int, t: int|
                    0 <= e < edge_ind && 0 <= t < n && (#[trigger] old(self).halfedges@[e]).next == t
                        ==> e <= (#[trigger] self.halfedges@[t]).prev < edge_ind && old(self).halfedges@[self.halfedges@[t].prev as int].next == t,
                forall|t: int|
                    0 <= t < n && (forall|e: int|
                        0 <= e < edge_ind ==> (#[trigger] old(self).halfedges@[e]).next != t) ==> (
                    #[trigger] self.halfedges@[t]).prev == old(self).halfedges@[t].prev,
            decreases n - edge_ind,
        {
            let next_edge = self.halfedges[edge_ind].next;
            if next_edge < n {
                let mut he = self.halfedges[next_edge];
                he.prev = edge_ind;
                self.halfedges.set(next_edge, he);
            }
            edge_ind += 1;
        }
        proof {
            assert forall|e: int| 0 <= e < self.halfedges@.len() implies #[trigger] twin_ok(
                self.halfedges@,
                e,
            ) by {
                assert(twin_ok(old(self).halfedges@, e));
            }
            assert forall|e: int| 0 <= e < self.halfedges@.len() implies #[trigger] links_ok(
                self.halfedges@,
                e,
                self.vertices@.len() as int,
                self.faces@.len() as int,
            ) by {
                assert(links_ok(
                    old(self).halfedges@,
                    e,
                    self.vertices@.len() as int,
                    self.faces@.len() as int,
                ));
            }
            if old(self).next_bijective() {
                Self::lemma_prev_closes(*old(self), *self);
                let he = old(self).halfedges@;
                let back = choose|back: Seq<int>| #[trigger] linked(he, back, no_tracer(he.len()));
                assert forall|x: int| 0 <= x < self.halfedges@.len() implies (#[trigger] self.halfedges@[x]).alive by {
                    assert(link_ok(he, back, no_tracer(he.len()), x));
                }
                Self::lemma_all_live_on_rings(*self);
            }
        }
    }

    /// Where leading to the `next` is one-to-one and onto, entering every
    /// half-edge as the `prev` of its `next` makes `next` and `prev` undo
    /// each other.
    pub proof fn lemma_prev_closes(before: DCEL, after: DCEL)
        requires
            before.wf(),
            before.next_bijective(),
            Self::prev_is_set(before.halfedges@, after.halfedges@),
        ensures
            after.links_closed(),
    {
        let he = before.halfedges@;
        let back = choose|back: Seq<int>| #[trigger] linked(he, back, no_tracer(he.len()));
        assert forall|e: int| 0 <= e < after.halfedges@.len() implies #[trigger] closed_at(
            after.halfedges@,
            e,
        ) by {
            assert(link_ok(he, back, no_tracer(he.len()), e));
            assert(twin_ok(he, e));
            let t = he[e].twin as int;
            assert(link_ok(he, back, no_tracer(he.len()), t));
            let nx = he[e].next as int;
            assert(link_ok(he, back, no_tracer(he.len()), nx));
            let b = back[e];
            assert(link_ok(he, back, no_tracer(he.len()), b));
            assert(he[b].next == e);
            let p = after.halfedges@[e].prev as int;
            assert(he[p].next == e);
            assert(link_ok(he, back, no_tracer(he.len()), p));
            let pn = after.halfedges@[nx].prev as int;
            assert(he[e].next == nx);
            assert(he[pn].next == nx);
            assert(link_ok(he, back, no_tracer(he.len()), pn));
        }
    }
    /// Along the boundaries, `next` and `prev` undo each other: every live
    /// half-edge has a live twin, a `next` and a `prev`, and is the `prev`
    /// of its `next` and the `next` of its `prev`.
    pub open spec fn links_closed(&self) -> bool {
        forall|e: int| 0 <= e < self.halfedges@.len() ==> #[trigger] closed_at(self.halfedges@, e)
    }

    /// Tests whether `next` and `prev` undo each other along the boundaries.
    pub fn check_links(&self) -> (r: bool)
        requires
            self.wf(),
        ensures
            r == self.links_closed(),
    {
        let n = self.halfedges.len();
        let mut e: usize = 0;
        while e < n
            invariant
                e <= n,
                n == self.halfedges@.len(),
                self.wf(),
                forall|x: int| 0 <= x < e ==> #[trigger] closed_at(self.halfedges@, x),
            decreases n - e,
        {
            let he = self.halfedges[e];
            proof {
                assert(twin_ok(self.halfedges@, e as int));
            }
            if he.alive {
                if he.next >= n || he.prev >= n {
                    assert(!closed_at(self.halfedges@, e as int));
                    return false;
                }
                if !self.halfedges[he.twin].alive || self.halfedges[he.next].prev != e
                    || self.halfedges[he.prev].next != e {
                    assert(!closed_at(self.halfedges@, e as int));
                    return false;
                }
            }
            e += 1;
        }
        true
    }

    /// The half-edges after `edge` and its twin have been cut out of the
    /// boundaries they lie on: what came before either now leads to what
    /// came after the other, and both are dead.
    pub open spec fn without_edge(he: Seq<HalfEdge>, edge: usize) -> Seq<HalfEdge> {
        let edge_prev = he[edge as int].prev;
        let edge_next = he[edge as int].next;
        let twin = he[edge as int].twin;
        let twin_prev = he[twin as int].prev;
        let twin_next = he[twin as int].next;
        let s1 = he.update(edge_prev as int, HalfEdge { next: twin_next, ..he[edge_prev as int] });
        let s2 = s1.update(edge_next as int, HalfEdge { prev: twin_prev, ..s1[edge_next as int] });
        let s3 = s2.update(twin_prev as int, HalfEdge { next: edge_next, ..s2[twin_prev as int] });
        let s4 = s3.update(twin_next as int, HalfEdge { prev: edge_prev, ..s3[twin_next as int] });
        let s5 = s4.update(edge as int, HalfEdge { alive: false, ..s4[edge as int] });
        s5.update(twin as int, HalfEdge { alive: false, ..s5[twin as int] })
    }

    /// Removes a half-edge and its twin.
    pub fn remove_edge(&mut self, edge: usize)
        requires
            old(self).wf(),
            edge < old(self).halfedges@.len(),
            old(self).halfedges@[edge as int].prev < old(self).halfedges@.len(),
            old(self).halfedges@[edge as int].next < old(self).halfedges@.len(),
            old(self).halfedges@[old(self).halfedges@[edge as int].twin as int].prev < old(self).halfedges@.len(),
            old(self).halfedges@[old(self).halfedges@[edge as int].twin as int].next < old(self).halfedges@.len(),
        ensures
            final(self).wf(),
            final(self).halfedges@ == Self::without_edge(old(self).halfedges@, edge),
            final(self).vertices@ == old(self).vertices@,
            final(self).faces@ == old(self).faces@,
            old(self).links_closed() && old(self).halfedges@[edge as int].alive ==> final(self).links_closed(),
            old(self).links_closed() && old(self).halfedges@[edge as int].alive && old(self).on_rings()
                ==> final(self).on_rings(),
            old(self).origins_set() ==> final(self).origins_set(),
    {
        proof {
            assert(twin_ok(self.halfedges@, edge as int));
        }
        let edge_prev = self.halfedges[edge].prev;
        let edge_next = self.halfedges[edge].next;
        let twin = self.halfedges[edge].twin;
        let twin_prev = self.halfedges[twin].prev;
        let twin_next = self.halfedges[twin].next;

        let mut he = self.halfedges[edge_prev];
        he.next = twin_next;
        self.halfedges.set(edge_prev, he);
        let mut he = self.halfedges[edge_next];
        he.prev = twin_prev;
        self.halfedges.set(edge_next, he);
        let mut he = self.halfedges[twin_prev];
        he.next = edge_next;
        self.halfedges.set(twin_prev, he);
        let mut he = self.halfedges[twin_next];
        he.prev = edge_prev;
        self.halfedges.set(twin_next, he);

        let mut he = self.halfedges[edge];
        he.alive = false;
        self.halfedges.set(edge, he);
        let mut he = self.halfedges[twin];
        he.alive = false;
        self.halfedges.set(twin, he);
        proof {
            assert(self.halfedges@ =~= Self::without_edge(old(self).halfedges@, edge));
            Self::lemma_without_edge_wf(*old(self), *self, edge);
            Self::lemma_without_edge_fields(old(self).halfedges@, edge);
            if old(self).links_closed() && old(self).halfedges@[edge as int].alive {
                Self::lemma_without_edge_closed(*old(self), *self, edge);
                if old(self).on_rings() {
                    Self::lemma_without_edge_rings(*old(self), *self, edge);
                }
            }
        }
    }

    /// What cutting a half-edge and its twin out does to each half-edge.
    pub proof fn lemma_without_edge_fields(he: Seq<HalfEdge>, edge: usize)
        requires
            edge < he.len(),
            he[edge as int].twin < he.len(),
            he[edge as int].prev < he.len(),
            he[edge as int].next < he.len(),
            he[he[edge as int].twin as int].prev < he.len(),
            he[he[edge as int].twin as int].next < he.len(),
        ensures
            Self::without_edge(he, edge).len() == he.len(),
            forall|x: int|
                0 <= x < he.len() ==> {
                    let after = #[trigger] Self::without_edge(he, edge)[x];
                    let twin = he[edge as int].twin;
                    &&& after.twin == he[x].twin
                    &&& after.origin == he[x].origin
                    &&& after.face == he[x].face
                    &&& after.alive == (he[x].alive && x != edge && x != twin)
                    &&& after.next == if x == he[twin as int].prev {
                        he[edge as int].next
                    } else if x == he[edge as int].prev {
                        he[twin as int].next
                    } else {
                        he[x].next
                    }
                    &&& after.prev == if x == he[twin as int].next {
                        he[edge as int].prev
                    } else if x == he[edge as int].next {
                        he[twin as int].prev
                    } else {
                        he[x].prev
                    }
                },
    {
        let twin = he[edge as int].twin;
        let ep = he[edge as int].prev;
        let en = he[edge as int].next;
        let tp = he[twin as int].prev;
        let tn = he[twin as int].next;
        let s1 = he.update(ep as int, HalfEdge { next: tn, ..he[ep as int] });
        let s2 = s1.update(en as int, HalfEdge { prev: tp, ..s1[en as int] });
        let s3 = s2.update(tp as int, HalfEdge { next: en, ..s2[tp as int] });
        let s4 = s3.update(tn as int, HalfEdge { prev: ep, ..s3[tn as int] });
        let s5 = s4.update(edge as int, HalfEdge { alive: false, ..s4[edge as int] });
        let s6 = s5.update(twin as int, HalfEdge { alive: false, ..s5[twin as int] });
        assert(s6 == Self::without_edge(he, edge));
        assert forall|x: int| 0 <= x < he.len() implies {
            let after = #[trigger] s6[x];
            &&& after.twin == he[x].twin
            &&& after.origin == he[x].origin
            &&& after.face == he[x].face
            &&& after.alive == (he[x].alive && x != edge && x != twin)
            &&& after.next == if x == tp {
                en
            } else if x == ep {
                tn
            } else {
                he[x].next
            }
            &&& after.prev == if x == tn {
                ep
            } else if x == en {
                tp
            } else {
                he[x].prev
            }
        } by {
            assert(s1[x].next == if x == ep { tn } else { he[x].next });
            assert(s1[x].prev == he[x].prev);
            assert(s2[x].next == s1[x].next);
            assert(s2[x].prev == if x == en { tp } else { he[x].prev });
            assert(s3[x].next == if x == tp { en } else { s2[x].next });
            assert(s3[x].prev == s2[x].prev);
            assert(s4[x].next == s3[x].next);
            assert(s4[x].prev == if x == tn { ep } else { s3[x].prev });
            assert(s5[x].next == s4[x].next && s5[x].prev == s4[x].prev);
            assert(s6[x].next == s5[x].next && s6[x].prev == s5[x].prev);
        }
    }

    /// Cutting a half-edge and its twin out keeps the edge list well formed.
    pub proof fn lemma_without_edge_wf(before: DCEL, after: DCEL, edge: usize)
        requires
            before.wf(),
            edge < before.halfedges@.len(),
            before.halfedges@[edge as int].prev < before.halfedges@.len(),
            before.halfedges@[edge as int].next < before.halfedges@.len(),
            before.halfedges@[before.halfedges@[edge as int].twin as int].prev < before.halfedges@.len(),
            before.halfedges@[before.halfedges@[edge as int].twin as int].next < before.halfedges@.len(),
            after.halfedges@ == Self::without_edge(before.halfedges@, edge),
            after.vertices@ == before.vertices@,
            after.faces@ == before.faces@,
        ensures
            after.wf(),
    {
        let he = before.halfedges@;
        assert(twin_ok(he, edge as int));
        Self::lemma_without_edge_fields(he, edge);
        assert forall|e: int| 0 <= e < after.halfedges@.len() implies #[trigger] twin_ok(
            after.halfedges@,
            e,
        ) by {
            assert(twin_ok(he, e));
            assert(after.halfedges@[e].twin == he[e].twin);
            assert(after.halfedges@[he[e].twin as int].twin == he[he[e].twin as int].twin);
        }
        assert forall|e: int| 0 <= e < after.halfedges@.len() implies #[trigger] links_ok(
            after.halfedges@,
            e,
            after.vertices@.len() as int,
            after.faces@.len() as int,
        ) by {
            assert(links_ok(he, e, before.vertices@.len() as int, before.faces@.len() as int));
            assert(after.halfedges@[e].origin == he[e].origin);
        }
    }

    /// Cutting a live half-edge and its twin out of boundaries along which
    /// `next` and `prev` undo each other leaves such boundaries.
    pub proof fn lemma_without_edge_closed(before: DCEL, after: DCEL, edge: usize)
        requires
            before.wf(),
            before.links_closed(),
            edge < before.halfedges@.len(),
            before.halfedges@[edge as int].alive,
            after.halfedges@ == Self::without_edge(before.halfedges@, edge),
        ensures
            after.links_closed(),
    {
        let he = before.halfedges@;
        let twin = he[edge as int].twin;
        assert(twin_ok(he, edge as int));
        assert(closed_at(he, edge as int));
        assert(closed_at(he, twin as int));
        Self::lemma_without_edge_fields(he, edge);
        let ep = he[edge as int].prev;
        let en = he[edge as int].next;
        let tp = he[twin as int].prev;
        let tn = he[twin as int].next;
        assert forall|x: int| 0 <= x < after.halfedges@.len() implies #[trigger] closed_at(
            after.halfedges@,
            x,
        ) by {
            let ax = after.halfedges@[x];
            if ax.alive {
                assert(x != edge && x != twin);
                assert(closed_at(he, x));
                assert(twin_ok(he, x));
                let t = he[x].twin;
                assert(after.halfedges@[t as int].alive == (he[t as int].alive && t != edge && t != twin));
                assert(twin_ok(he, twin as int));
                let xn = ax.next;
                let xp = ax.prev;
                assert(after.halfedges@[xn as int].prev == x);
                assert(after.halfedges@[xp as int].next == x);
            }
        }
    }

    /// The half-edges that leave a vertex, in the order in which the walk
    /// around the vertex meets them, starting with the vertex's incident
    /// edge; nothing if that walk is not back at its start after as many steps
    /// as there are half-edges.
    pub fn get_edges_around_vertex(&self, vertex: usize) -> (r: Option<Vec<usize>>)
        requires
            self.wf(),
            vertex < self.vertices@.len(),
        ensures
            r matches Some(v) ==> {
                &&& v@.len() <= self.halfedges@.len()
                &&& fan_of(self.halfedges@, self.vertices@[vertex as int].incident_edge, v@.len())
                &&& forall|j: int|
                    0 <= j < v@.len() ==> #[trigger] v@[j] == walk_around(
                        self.halfedges@,
                        self.vertices@[vertex as int].incident_edge,
                        j as nat,
                    ) && v@[j] < self.halfedges@.len()
            },
            r is None ==> forall|k: nat|
                1 <= k <= self.halfedges@.len() ==> #[trigger] walk_around(
                    self.halfedges@,
                    self.vertices@[vertex as int].incident_edge,
                    k,
                ) != self.vertices@[vertex as int].incident_edge,
    {
        let n = self.halfedges.len();
        let mut result: Vec<usize> = Vec::new();
        let start_edge = self.vertices[vertex].incident_edge;
        let mut current_edge = start_edge;
        loop
            invariant
                self.wf(),
                n == self.halfedges@.len(),
                start_edge == self.vertices@[vertex as int].incident_edge,
                start_edge < n,
                current_edge < n,
                result@.len() < n,
                current_edge == walk_around(self.halfedges@, start_edge, result@.len()),
                forall|j: int|
                    0 <= j < result@.len() ==> #[trigger] result@[j] == walk_around(
                        self.halfedges@,
                        start_edge,
                        j as nat,
                    ) && result@[j] < n,
                forall|j: nat|
                    0 < j <= result@.len() ==> #[trigger] walk_around(self.halfedges@, start_edge, j)
                        != start_edge,
            decreases n - result@.len(),
        {
            result.push(current_edge);
            proof {
                assert(twin_ok(self.halfedges@, current_edge as int));
            }
            let current_twin = self.halfedges[current_edge].twin;
            let next_edge = self.halfedges[current_twin].next;
            assert(next_edge == walk_around(self.halfedges@, start_edge, result@.len()));
            if next_edge == start_edge {
                return Some(result);
            }
            if next_edge >= n {
                proof {
                    assert forall|k: nat| 1 <= k <= n implies #[trigger] walk_around(
                        self.halfedges@,
                        start_edge,
                        k,
                    ) != start_edge by {
                        if k >= result@.len() {
                            lemma_walk_around_out(self.halfedges@, start_edge, result@.len(), k);
                        }
                    }
                }
                return None;
            }
            if result.len() >= n {
                return None;
            }
            current_edge = next_edge;
        }
    }

    /// Remove a vertex and all attached halfedges.
    /// Does not affect faces!!
    ///
    /// The walk around the vertex has to come back to its start.
    pub fn remove_vertex(&mut self, vertex: usize)
        requires
            old(self).wf(),
            old(self).links_closed(),
            vertex < old(self).vertices@.len(),
            fan_closes(old(self).halfedges@, old(self).vertices@[vertex as int].incident_edge),
        ensures
            final(self).wf(),
            final(self).links_closed(),
            final(self).faces@ == old(self).faces@,
            final(self).halfedges@.len() == old(self).halfedges@.len(),
            final(self).vertices@.len() == old(self).vertices@.len(),
            old(self).origins_set() ==> final(self).origins_set(),
            old(self).on_rings() ==> final(self).on_rings(),
            pruning(old(self).halfedges@, old(self).vertices@, vertex as int) ==> pruning(
                final(self).halfedges@,
                final(self).vertices@,
                vertex + 1,
            ),
            pruning(old(self).halfedges@, old(self).vertices@, vertex as int) && fanned(
                old(self).halfedges@,
                old(self).vertices@,
                vertex as int,
            ) && old(self).live_origins() ==> final(self).live_origins() && fanned(
                final(self).halfedges@,
                final(self).vertices@,
                vertex + 1,
            ),
            final(self).halfedges@ == without_edges(
                old(self).halfedges@,
                fan(old(self).halfedges@, old(self).vertices@[vertex as int].incident_edge),
            ),
            final(self).vertices@ == old(self).vertices@.update(
                vertex as int,
                Vertex { alive: false, ..old(self).vertices@[vertex as int] },
            ),
    {
        let vertex_edges = match self.get_edges_around_vertex(vertex) {
            Some(v) => v,
            None => {
                return ;
            },
        };
        let ghost start = self.vertices@[vertex as int].incident_edge;
        let ghost list = Seq::new(
            vertex_edges@.len(),
            |j: int| walk_around(old(self).halfedges@, start, j as nat),
        );
        proof {
            assert(vertex_edges@ =~= list);
            if pruning(self.halfedges@, self.vertices@, vertex as int) {
                let he = self.halfedges@;
                lemma_pruning_step(he, self.vertices@, vertex as int);
                assert(prune_vertex_ok(he, self.vertices@, vertex as int, vertex as int));
                assert(twin_ok(he, start as int));
                assert(walk_around(he, start, 0) == start);
                assert forall|j: int| 0 <= j < list.len() && he[#[trigger] list[j] as int].alive implies he[list[j] as int].origin
                    == vertex by {
                    if he[start as int].alive {
                        lemma_fan_walk(he, self.vertices@, vertex as int, start, j as nat);
                    } else {
                        assert(prune_edge_ok(he, self.vertices@.len() as int, vertex as int, start as int));
                        assert(walk_around(he, start, 1) == start);
                        assert(list.len() == 1);
                    }
                }
            }
        }
        let ghost whole = pruning(old(self).halfedges@, old(self).vertices@, vertex as int) && fanned(
            old(self).halfedges@,
            old(self).vertices@,
            vertex as int,
        ) && old(self).live_origins();
        let ghost turns: Seq<nat> = if whole {
            choose|turns: Seq<nat>| #[trigger]
                fanned_with(old(self).halfedges@, old(self).vertices@, turns, vertex as int)
        } else {
            Seq::empty()
        };
        proof {
            if whole {
                assert forall|x: int| 0 <= x < self.halfedges@.len() implies #[trigger] fan_ok(
                    self.halfedges@,
                    self.vertices@,
                    turns,
                    vertex + 1,
                    x,
                ) by {
                    assert(fan_ok(self.halfedges@, self.vertices@, turns, vertex as int, x));
                }
            }
        }
        let mut i: usize = 0;
        while i < vertex_edges.len()
            invariant
                i <= vertex_edges@.len(),
                self.wf(),
                self.links_closed(),
                vertex < self.vertices@.len(),
                whole ==> pruning(old(self).halfedges@, old(self).vertices@, vertex as int),
                whole ==> fanned_with(self.halfedges@, self.vertices@, turns, vertex + 1),
                forall|j: int| 0 <= j < i ==> !self.halfedges@[#[trigger] list[j] as int].alive,
                forall|x: int|
                    0 <= x < self.halfedges@.len() ==> {
                        &&& (#[trigger] self.halfedges@[x]).alive ==> old(self).halfedges@[x].alive
                        &&& self.halfedges@[x].origin == old(self).halfedges@[x].origin
                    },
                pruning(old(self).halfedges@, old(self).vertices@, vertex as int) ==> {
                    &&& pruning(self.halfedges@, self.vertices@, vertex + 1)
                    &&& forall|j: int|
                        0 <= j < list.len() && self.halfedges@[#[trigger] list[j] as int].alive
                            ==> self.halfedges@[list[j] as int].origin == vertex
                },
                self.halfedges@.len() == old(self).halfedges@.len(),
                self.vertices@ == old(self).vertices@,
                self.faces@ == old(self).faces@,
                old(self).origins_set() ==> self.origins_set(),
                old(self).on_rings() ==> self.on_rings(),
                vertex_edges@ == list,
                forall|j: int| 0 <= j < list.len() ==> #[trigger] list[j] < self.halfedges@.len(),
                self.halfedges@ == without_edges(old(self).halfedges@, list.subrange(0, i as int)),
            decreases vertex_edges@.len() - i,
        {
            let edge = vertex_edges[i];
            proof {
                assert(list.subrange(0, i + 1).drop_last() =~= list.subrange(0, i as int));
                assert(list.subrange(0, i + 1).last() == edge);
                assert(closed_at(self.halfedges@, edge as int));
                assert(twin_ok(self.halfedges@, edge as int));
                assert(closed_at(self.halfedges@, self.halfedges@[edge as int].twin as int));
            }
            let ghost before = *self;
            if self.halfedges[edge].alive {
                self.remove_edge(edge);
                proof {
                    Self::lemma_without_edge_fields(before.halfedges@, edge);
                    assert forall|x: int| 0 <= x < self.halfedges@.len() implies {
                        &&& (#[trigger] self.halfedges@[x]).alive ==> old(self).halfedges@[x].alive
                        &&& self.halfedges@[x].origin == old(self).halfedges@[x].origin
                    } by {
                        assert(self.halfedges@[x] == Self::without_edge(before.halfedges@, edge)[x]);
                        assert(before.halfedges@[x].alive ==> old(self).halfedges@[x].alive);
                    }
                    assert forall|j: int| 0 <= j < i + 1 implies !self.halfedges@[#[trigger] list[j] as int].alive by {
                        assert(self.halfedges@[list[j] as int] == Self::without_edge(before.halfedges@, edge)[list[j] as int]);
                        if j < i {
                            assert(!before.halfedges@[list[j] as int].alive);
                        }
                    }
                    if whole {
                        lemma_fans_without_edge(before, *self, turns, vertex + 1, edge);
                    }
                    if pruning(old(self).halfedges@, old(self).vertices@, vertex as int) {
                        lemma_pruning_without_edge(before, *self, vertex + 1, edge);
                        assert forall|j: int|
                            0 <= j < list.len() && self.halfedges@[#[trigger] list[j] as int].alive implies self.halfedges@[list[j] as int].origin
                            == vertex by {
                            assert(before.halfedges@[list[j] as int].alive);
                        }
                    }
                }
            }
            i += 1;
        }
        proof {
            assert(list.subrange(0, list.len() as int) =~= list);
        }
        let ghost pruned = *self;
        let mut v = self.vertices[vertex];
        v.alive = false;
        self.vertices.set(vertex, v);
        proof {
            if pruned.on_rings() {
                let ring = choose|ring: Seq<bool>| #[trigger] ringed(pruned.halfedges@, ring);
                assert(ringed(self.halfedges@, ring));
            }
            if pruning(old(self).halfedges@, old(self).vertices@, vertex as int) {
                assert forall|x: int| 0 <= x < self.halfedges@.len() implies #[trigger] prune_edge_ok(
                    self.halfedges@,
                    self.vertices@.len() as int,
                    vertex + 1,
                    x,
                ) by {
                    assert(prune_edge_ok(pruned.halfedges@, pruned.vertices@.len() as int, vertex + 1, x));
                }
                assert forall|v: int| 0 <= v < self.vertices@.len() implies #[trigger] prune_vertex_ok(
                    self.halfedges@,
                    self.vertices@,
                    vertex + 1,
                    v,
                ) by {
                    assert(prune_vertex_ok(pruned.halfedges@, pruned.vertices@, vertex + 1, v));
                }
            }
            assert forall|e: int| 0 <= e < self.halfedges@.len() implies #[trigger] links_ok(
                self.halfedges@,
                e,
                self.vertices@.len() as int,
                self.faces@.len() as int,
            ) by {
                assert(links_ok(
                    self.halfedges@,
                    e,
                    old(self).vertices@.len() as int,
                    self.faces@.len() as int,
                ));
            }
            assert(fan_of(old(self).halfedges@, start, list.len()));
            lemma_fan_len(old(self).halfedges@, start, list.len());
            assert(list =~= fan(old(self).halfedges@, start));
            if whole {
                let he0 = old(self).halfedges@;
                assert forall|x: int| 0 <= x < self.halfedges@.len() implies #[trigger] fan_ok(
                    self.halfedges@,
                    self.vertices@,
                    turns,
                    vertex + 1,
                    x,
                ) by {
                    assert(fan_ok(pruned.halfedges@, pruned.vertices@, turns, vertex + 1, x));
                }
                assert(fanned_with(self.halfedges@, self.vertices@, turns, vertex + 1));
                assert forall|e: int| 0 <= e < he0.len() implies #[trigger] twin_ok(he0, e) by {}
                assert forall|x: int| 0 <= x < self.halfedges@.len() implies #[trigger] rooted_at(
                    self.halfedges@,
                    self.vertices@,
                    x,
                ) by {
                    assert(rooted_at(he0, old(self).vertices@, x));
                    if self.halfedges@[x].alive && self.halfedges@[x].origin == vertex {
                        assert(he0[x].alive);
                        lemma_fan_holds_all(he0, old(self).vertices@, turns, vertex as int, list.len(), x);
                        let j = choose|j: nat| j < list.len() && #[trigger] walk_around(he0, start, j) == x;
                        assert(list[j as int] == x);
                        assert(!pruned.halfedges@[list[j as int] as int].alive);
                    }
                }
            }
        }
    }
    /// The number of steps after which the walk along `next` from `start`
    /// is first back at `start`; nothing if it is not back after as many steps
    /// as there are half-edges.
    pub fn cycle_length(&self, start: usize) -> (r: Option<usize>)
        requires
            self.wf(),
            start < self.halfedges@.len(),
        ensures
            r matches Some(k) ==> {
                &&& k <= self.halfedges@.len()
                &&& cycle_of(self.halfedges@, start, k as nat)
                &&& forall|j: nat| j < k ==> #[trigger] walk_next(self.halfedges@, start, j) < self.halfedges@.len()
            },
            r is None ==> !cycle_closes(self.halfedges@, start),
    {
        let n = self.halfedges.len();
        let mut current_edge = start;
        let mut steps: usize = 0;
        loop
            invariant
                self.wf(),
                n == self.halfedges@.len(),
                start < n,
                current_edge < n,
                steps < n,
                current_edge == walk_next(self.halfedges@, start, steps as nat),
                forall|j: nat| j <= steps ==> #[trigger] walk_next(self.halfedges@, start, j) < n,
                forall|j: nat| 0 < j <= steps ==> #[trigger] walk_next(self.halfedges@, start, j) != start,
            decreases n - steps,
        {
            let next_edge = self.halfedges[current_edge].next;
            steps += 1;
            assert(next_edge == walk_next(self.halfedges@, start, steps as nat));
            if next_edge == start {
                return Some(steps);
            }
            if next_edge >= n || steps >= n {
                proof {
                    assert forall|k: nat| k <= n implies !#[trigger] cycle_of(
                        self.halfedges@,
                        start,
                        k,
                    ) by {
                        if k >= steps && next_edge >= n {
                            lemma_walk_next_out(self.halfedges@, start, steps as nat, k);
                        }
                    }
                }
                return None;
            }
            current_edge = next_edge;
        }
    }

    /// Every live face lies to the left of a live half-edge that is
    /// labelled with the face, and the walk along `next` from that half-edge
    /// comes back to it.
    pub open spec fn faces_closed(&self) -> bool {
        forall|f: int|
            0 <= f < self.faces@.len() ==> {
                &&& (#[trigger] self.faces@[f]).alive
                &&& self.faces@[f].outer_component < self.halfedges@.len()
                &&& self.halfedges@[self.faces@[f].outer_component as int].alive
                &&& self.halfedges@[self.faces@[f].outer_component as int].face == f
                &&& cycle_closes(self.halfedges@, self.faces@[f].outer_component)
            }
    }

    /// Every live half-edge is labelled with a face and lies on the walk
    /// along `next` from the half-edge that the face names, which is a live
    /// half-edge with no higher index.
    pub open spec fn faces_cover(&self) -> bool {
        forall|e: int|
            0 <= e < self.halfedges@.len() && (#[trigger] self.halfedges@[e]).alive ==> {
                &&& self.halfedges@[e].face < self.faces@.len()
                &&& self.faces@[self.halfedges@[e].face as int].outer_component <= e
                &&& on_cycle(
                    self.halfedges@,
                    self.faces@[self.halfedges@[e].face as int].outer_component,
                    e as usize,
                )
            }
    }

    /// A half-edge that is labelled with a face leads to a half-edge that
    /// is labelled with the same face: a boundary has one face.
    pub open spec fn faces_follow(&self) -> bool {
        forall|e: int|
            0 <= e < self.halfedges@.len() && (#[trigger] self.halfedges@[e]).face != NIL ==> {
                &&& self.halfedges@[e].next < self.halfedges@.len()
                &&& self.halfedges@[self.halfedges@[e].next as int].face == self.halfedges@[e].face
            }
    }
}

/// What `add_faces` leaves unchanged: the vertices, and of each half-edge
/// everything but the face, which changes only to a face on whose boundary
/// walk the half-edge lies.
pub open spec fn faces_added(before: DCEL, after: DCEL) -> bool {
    &&& after.vertices@ == before.vertices@
    &&& after.halfedges@.len() == before.halfedges@.len()
    &&& forall|x: int|
        0 <= x < before.halfedges@.len() ==> {
            &&& (#[trigger] after.halfedges@[x]).origin == before.halfedges@[x].origin
            &&& after.halfedges@[x].twin == before.halfedges@[x].twin
            &&& after.halfedges@[x].next == before.halfedges@[x].next
            &&& after.halfedges@[x].prev == before.halfedges@[x].prev
            &&& after.halfedges@[x].alive == before.halfedges@[x].alive
            &&& after.halfedges@[x].face == before.halfedges@[x].face || (after.halfedges@[x].face
                < after.faces@.len() && on_cycle(
                after.halfedges@,
                after.faces@[after.halfedges@[x].face as int].outer_component,
                x as usize,
            ))
        }
    &&& forall|f: int, g: int|
        0 <= f < g < after.faces@.len() ==> (#[trigger] after.faces@[f]).outer_component < (
        #[trigger] after.faces@[g]).outer_component
}

impl DCEL {
    /// The walk along `next` from every live half-edge comes back to that
    /// half-edge.
    pub open spec fn walks_close(&self) -> bool {
        forall|e: int|
            0 <= e < self.halfedges@.len() && (#[trigger] self.halfedges@[e]).alive ==> cycle_closes(
                self.halfedges@,
                e as usize,
            )
    }
}

/// Construct faces for a DCEL.
///
/// Each live half-edge that no earlier face has claimed opens a face, and
/// the face claims every half-edge on the walk along `next` from it, which
/// has to come back to its start.
pub fn add_faces(dcel: &mut DCEL)
    requires
        old(dcel).wf(),
        old(dcel).faces@.len() == 0,
        old(dcel).walks_close(),
    ensures
        final(dcel).wf(),
        faces_added(*old(dcel), *final(dcel)),
        final(dcel).faces_closed(),
        final(dcel).faces_cover(),
        final(dcel).faces_follow(),
{
    let num_halfedges = dcel.halfedges.len();
    let mut seen_edges: Vec<bool> = vec![false; num_halfedges];
    let ghost he0 = dcel.halfedges@;
    let ghost n = num_halfedges;

    let mut edge_index: usize = 0;
    while edge_index < num_halfedges
        invariant
            edge_index <= num_halfedges,
            n == num_halfedges,
            he0 == old(dcel).halfedges@,
            he0.len() == n,
            seen_edges@.len() == n,
            dcel.halfedges@.len() == n,
            old(dcel).wf(),
            old(dcel).faces@.len() == 0,
            old(dcel).walks_close(),
            dcel.wf(),
            dcel.vertices@ == old(dcel).vertices@,
            face_labels(he0, dcel.halfedges@, dcel.faces@, seen_edges@),
            dcel.faces@.len() <= edge_index,
            forall|x: int| 0 <= x < edge_index && (#[trigger] he0[x]).alive ==> seen_edges@[x],
            forall|f: int|
                0 <= f < dcel.faces@.len() ==> (#[trigger] dcel.faces@[f]).outer_component < edge_index,
        decreases num_halfedges - edge_index,
    {
        proof {
            assert(label_ok(he0, dcel.halfedges@, dcel.faces@, seen_edges@, edge_index as int));
        }
        if !seen_edges[edge_index] && dcel.halfedges[edge_index].alive {
            proof {
                lemma_same_walks(he0, dcel.halfedges@, dcel.faces@, seen_edges@);
            }
            let length = match dcel.cycle_length(edge_index) {
                Some(k) => k,
                None => {
                    proof {
                        assert forall|k: nat| k <= n implies !#[trigger] cycle_of(
                            he0,
                            edge_index,
                            k,
                        ) by {
                            assert(!cycle_of(dcel.halfedges@, edge_index, k));
                        }
                        assert(he0[edge_index as int].alive);
                        assert(cycle_closes(he0, edge_index));
                        let k = choose|k: nat| k <= he0.len() && #[trigger] cycle_of(he0, edge_index, k);
                        assert(cycle_of(he0, edge_index, k));
                    }
                    return ;
                },
            };
            let face_index = dcel.faces.len();
            let ghost faces_before = dcel.faces@;
            let new_face = Face::new(edge_index);
            dcel.faces.push(new_face);

            let ghost seen_before = seen_edges@;
            let ghost he_before = dcel.halfedges@;
            proof {
                assert(cycle_of(he0, edge_index, length as nat));
                assert forall|i: nat| i < length implies !seen_before[#[trigger] walk_next(
                    he0,
                    edge_index,
                    i,
                ) as int] by {
                    if seen_before[walk_next(he0, edge_index, i) as int] {
                        lemma_labels_closed(he0, he_before, faces_before, seen_before);
                        lemma_walk_stays(he0, seen_before, edge_index, i, length as nat);
                    }
                }
                assert forall|x: int| 0 <= x < n implies #[trigger] claim_ok(
                    he0,
                    he_before,
                    seen_before,
                    dcel.halfedges@,
                    seen_edges@,
                    edge_index,
                    face_index,
                    0,
                    x,
                ) by {
                    assert(label_ok(he0, he_before, faces_before, seen_before, x));
                }
            }
            let mut current_edge = edge_index;
            let mut j: usize = 0;
            while j < length
                invariant
                    j <= length,
                    length <= n,
                    n == num_halfedges,
                    edge_index < n,
                    he0.len() == n,
                    he_before.len() == n,
                    seen_before.len() == n,
                    seen_edges@.len() == n,
                    dcel.halfedges@.len() == n,
                    dcel.vertices@ == old(dcel).vertices@,
                    dcel.faces@ == faces_before.push(Face { outer_component: edge_index, alive: true }),
                    face_index == faces_before.len(),
                    current_edge == walk_next(he0, edge_index, j as nat),
                    forall|i: nat| i <= length ==> #[trigger] walk_next(he0, edge_index, i) < n,
                    forall|x: int|
                        0 <= x < n ==> #[trigger] claim_ok(
                            he0,
                            he_before,
                            seen_before,
                            dcel.halfedges@,
                            seen_edges@,
                            edge_index,
                            face_index,
                            j as nat,
                            x,
                        ),
                decreases length - j,
            {
                let ghost he_prev = dcel.halfedges@;
                let ghost seen_prev = seen_edges@;
                proof {
                    assert(claim_ok(
                        he0,
                        he_before,
                        seen_before,
                        he_prev,
                        seen_prev,
                        edge_index,
                        face_index,
                        j as nat,
                        current_edge as int,
                    ));
                }
                seen_edges.set(current_edge, true);
                let mut he = dcel.halfedges[current_edge];
                he.face = face_index;
                let next_edge = he.next;
                dcel.halfedges.set(current_edge, he);
                proof {
                    assert(walk_next(he0, edge_index, (j + 1) as nat) == next_edge);
                    assert forall|x: int| 0 <= x < n implies #[trigger] claim_ok(
                        he0,
                        he_before,
                        seen_before,
                        dcel.halfedges@,
                        seen_edges@,
                        edge_index,
                        face_index,
                        (j + 1) as nat,
                        x,
                    ) by {
                        assert(claim_ok(
                            he0,
                            he_before,
                            seen_before,
                            he_prev,
                            seen_prev,
                            edge_index,
                            face_index,
                            j as nat,
                            x,
                        ));
                        lemma_on_walk_step(he0, edge_index, j as nat, x as usize);
                    }
                }
                current_edge = next_edge;
                j += 1;
            }
            proof {
                assert(dcel.faces@.drop_last() =~= faces_before);
                lemma_face_claimed(
                    he0,
                    he_before,
                    seen_before,
                    dcel.halfedges@,
                    dcel.faces@,
                    seen_edges@,
                    edge_index,
                    length as nat,
                );
                lemma_labels_wf(*old(dcel), *dcel, seen_edges@);
                assert(label_ok(he0, dcel.halfedges@, dcel.faces@, seen_edges@, edge_index as int));
                assert(face_ok(he0, dcel.halfedges@, dcel.faces@, seen_edges@, face_index as int));
                assert forall|x: int| 0 <= x < edge_index + 1 && (#[trigger] he0[x]).alive implies seen_edges@[x] by {
                    assert(claim_ok(
                        he0,
                        he_before,
                        seen_before,
                        dcel.halfedges@,
                        seen_edges@,
                        edge_index,
                        face_index,
                        length as nat,
                        x,
                    ));
                    if x == edge_index {
                        assert(walk_next(he0, edge_index, 0) == edge_index);
                        assert(on_walk(he0, edge_index, length as nat, x as usize));
                    }
                }
            }
        }
        edge_index += 1;
    }
    proof {
        lemma_faces_added(*old(dcel), *dcel, seen_edges@);
        lemma_faces_done(*old(dcel), *dcel, seen_edges@);
    }
}

/// Two half-edges that differ in their face at most.
pub open spec fn same_but_face(a: HalfEdge, b: HalfEdge) -> bool {
    &&& a.origin == b.origin
    &&& a.twin == b.twin
    &&& a.next == b.next
    &&& a.prev == b.prev
    &&& a.alive == b.alive
}

/// Does the walk along `next` from `start` meet `x` within its first `j`
/// half-edges?
pub open spec fn on_walk(he: Seq<HalfEdge>, start: usize, j: nat, x: usize) -> bool {
    exists|i: nat| i < j && #[trigger] walk_next(he, start, i) == x
}

/// What holds of the half-edge `x` while faces are made: a claimed
/// half-edge is labelled with a face on whose walk it lies, and its `next`
/// is claimed too, by the same face; an unclaimed one is as it was.
pub open spec fn label_ok(
    he0: Seq<HalfEdge>,
    he: Seq<HalfEdge>,
    faces: Seq<Face>,
    seen: Seq<bool>,
    x: int,
) -> bool {
    &&& same_but_face(he[x], he0[x])
    &&& !seen[x] ==> he[x].face == he0[x].face
    &&& seen[x] ==> {
        &&& he0[x].next < he0.len()
        &&& seen[he0[x].next as int]
        &&& he[he0[x].next as int].face == he[x].face
        &&& he[x].face < faces.len()
        &&& he0[x].alive ==> faces[he[x].face as int].outer_component <= x
        &&& on_cycle(he0, faces[he[x].face as int].outer_component, x as usize)
    }
}

/// What holds of the face `f` while faces are made.
pub open spec fn face_ok(
    he0: Seq<HalfEdge>,
    he: Seq<HalfEdge>,
    faces: Seq<Face>,
    seen: Seq<bool>,
    f: int,
) -> bool {
    &&& faces[f].alive
    &&& faces[f].outer_component < he0.len()
    &&& he0[faces[f].outer_component as int].alive
    &&& seen[faces[f].outer_component as int]
    &&& he[faces[f].outer_component as int].face == f
    &&& cycle_closes(he0, faces[f].outer_component)
}

/// What holds between the half-edges as they were, the half-edges and faces
/// as they are with the faces made so far, and the set of half-edges that
/// those faces have claimed.
pub open spec fn face_labels(he0: Seq<HalfEdge>, he: Seq<HalfEdge>, faces: Seq<Face>, seen: Seq<bool>) -> bool {
    &&& he.len() == he0.len()
    &&& seen.len() == he0.len()
    &&& he0.len() < NIL
    &&& forall|x: int| 0 <= x < he0.len() ==> #[trigger] label_ok(he0, he, faces, seen, x)
    &&& forall|f: int| 0 <= f < faces.len() ==> #[trigger] face_ok(he0, he, faces, seen, f)
    &&& forall|f: int, g: int|
        0 <= f < g < faces.len() ==> (#[trigger] faces[f]).outer_component < (
        #[trigger] faces[g]).outer_component
}

/// What holds of the half-edge `x` while a face claims the first `j`
/// half-edges of the walk from `leader`.
pub open spec fn claim_ok(
    he0: Seq<HalfEdge>,
    he_before: Seq<HalfEdge>,
    seen_before: Seq<bool>,
    he: Seq<HalfEdge>,
    seen: Seq<bool>,
    leader: usize,
    face: usize,
    j: nat,
    x: int,
) -> bool {
    &&& same_but_face(he[x], he0[x])
    &&& seen[x] == (seen_before[x] || on_walk(he0, leader, j, x as usize))
    &&& he[x].face == if on_walk(he0, leader, j, x as usize) {
        face
    } else {
        he_before[x].face
    }
}

/// The first `j + 1` half-edges of a walk are the first `j` and the one
/// after `j` steps.
proof fn lemma_on_walk_step(he: Seq<HalfEdge>, start: usize, j: nat, x: usize)
    ensures
        on_walk(he, start, j + 1, x) == (on_walk(he, start, j, x) || walk_next(he, start, j) == x),
{
    if on_walk(he, start, j + 1, x) {
        let i = choose|i: nat| i < j + 1 && #[trigger] walk_next(he, start, i) == x;
        if i < j {
            assert(on_walk(he, start, j, x));
        }
    }
    if on_walk(he, start, j, x) {
        let i = choose|i: nat| i < j && #[trigger] walk_next(he, start, i) == x;
        assert(i < j + 1);
    }
    if walk_next(he, start, j) == x {
        assert(j < j + 1);
    }
}

/// While faces are made, the walks along `next` are what they were.
proof fn lemma_same_walks(he0: Seq<HalfEdge>, he: Seq<HalfEdge>, faces: Seq<Face>, seen: Seq<bool>)
    requires
        face_labels(he0, he, faces, seen),
    ensures
        forall|e: usize, k: nat|
            #![trigger walk_next(he, e, k)]
            #![trigger walk_next(he0, e, k)]
            walk_next(he, e, k) == walk_next(he0, e, k),
        forall|e: usize, k: nat|
            #![trigger cycle_of(he, e, k)]
            #![trigger cycle_of(he0, e, k)]
            cycle_of(he, e, k) == cycle_of(he0, e, k),
        forall|e: usize| #![trigger cycle_closes(he, e)] cycle_closes(he, e) == cycle_closes(he0, e),
        forall|e: usize, x: usize| #![trigger on_cycle(he, e, x)] on_cycle(he, e, x) == on_cycle(he0, e, x),
{
    assert forall|x: int| 0 <= x < he.len() implies (#[trigger] he[x]).next == he0[x].next by {
        assert(label_ok(he0, he, faces, seen, x));
    }
    assert forall|e: usize, k: nat|
        #![trigger walk_next(he, e, k)]
        #![trigger walk_next(he0, e, k)]
        walk_next(he, e, k) == walk_next(he0, e, k) by {
        lemma_walk_same_next(he, he0, e, k);
    }
    assert forall|e: usize, k: nat|
        #![trigger cycle_of(he, e, k)]
        #![trigger cycle_of(he0, e, k)]
        cycle_of(he, e, k) == cycle_of(he0, e, k) by {}
    assert forall|e: usize| #![trigger cycle_closes(he, e)] cycle_closes(he, e) == cycle_closes(he0, e) by {
        if cycle_closes(he, e) {
            let k = choose|k: nat| k <= he.len() && #[trigger] cycle_of(he, e, k);
            assert(cycle_of(he0, e, k));
        }
        if cycle_closes(he0, e) {
            let k = choose|k: nat| k <= he0.len() && #[trigger] cycle_of(he0, e, k);
            assert(cycle_of(he, e, k));
        }
    }
    assert forall|e: usize, x: usize| #![trigger on_cycle(he, e, x)] on_cycle(he, e, x) == on_cycle(
        he0,
        e,
        x,
    ) by {
        if on_cycle(he, e, x) {
            let j = choose|j: nat| j < he.len() && #[trigger] walk_next(he, e, j) == x;
            assert(walk_next(he0, e, j) == x);
        }
        if on_cycle(he0, e, x) {
            let j = choose|j: nat| j < he0.len() && #[trigger] walk_next(he0, e, j) == x;
            assert(walk_next(he, e, j) == x);
        }
    }
}

/// While faces are made, the claimed half-edges are closed under `next`.
proof fn lemma_labels_closed(he0: Seq<HalfEdge>, he: Seq<HalfEdge>, faces: Seq<Face>, seen: Seq<bool>)
    requires
        face_labels(he0, he, faces, seen),
    ensures
        forall|x: int|
            0 <= x < he0.len() && #[trigger] seen[x] ==> he0[x].next < he0.len() && seen[he0[x].next as int],
{
    assert forall|x: int| 0 <= x < he0.len() && #[trigger] seen[x] implies he0[x].next < he0.len()
        && seen[he0[x].next as int] by {
        assert(label_ok(he0, he, faces, seen, x));
    }
}

/// A face that has claimed the half-edges of a closed walk which none of the
/// earlier faces had claimed keeps `face_labels`.
proof fn lemma_face_claimed(
    he0: Seq<HalfEdge>,
    he_before: Seq<HalfEdge>,
    seen_before: Seq<bool>,
    he: Seq<HalfEdge>,
    faces: Seq<Face>,
    seen: Seq<bool>,
    leader: usize,
    length: nat,
)
    requires
        faces.len() >= 1,
        faces.len() < NIL,
        face_labels(he0, he_before, faces.drop_last(), seen_before),
        faces.last() == (Face { outer_component: leader, alive: true }),
        leader < he0.len(),
        he0[leader as int].alive,
        !seen_before[leader as int],
        forall|f: int| 0 <= f < faces.len() - 1 ==> (#[trigger] faces[f]).outer_component < leader,
        forall|x: int| 0 <= x < leader && (#[trigger] he0[x]).alive ==> seen_before[x],
        length <= he0.len(),
        cycle_of(he0, leader, length),
        forall|i: nat| i <= length ==> #[trigger] walk_next(he0, leader, i) < he0.len(),
        forall|i: nat| i < length ==> !seen_before[#[trigger] walk_next(he0, leader, i) as int],
        he.len() == he0.len(),
        seen.len() == he0.len(),
        forall|x: int|
            0 <= x < he0.len() ==> #[trigger] claim_ok(
                he0,
                he_before,
                seen_before,
                he,
                seen,
                leader,
                (faces.len() - 1) as usize,
                length,
                x,
            ),
    ensures
        face_labels(he0, he, faces, seen),
{
    let n = he0.len();
    let fi = (faces.len() - 1) as usize;
    let prior = faces.drop_last();
    assert(walk_next(he0, leader, 0) == leader);
    assert(on_walk(he0, leader, length, leader));
    assert forall|x: int| 0 <= x < n implies #[trigger] label_ok(he0, he, faces, seen, x) by {
        assert(claim_ok(he0, he_before, seen_before, he, seen, leader, fi, length, x));
        assert(label_ok(he0, he_before, prior, seen_before, x));
        if on_walk(he0, leader, length, x as usize) {
            let i = choose|i: nat| i < length && #[trigger] walk_next(he0, leader, i) == x;
            assert(!seen_before[x]);
            assert(walk_next(he0, leader, i + 1) == he0[x].next);
            let y = he0[x].next;
            assert(claim_ok(he0, he_before, seen_before, he, seen, leader, fi, length, y as int));
            if i + 1 < length {
                assert(on_walk(he0, leader, length, y));
            } else {
                assert(y == leader);
            }
            assert(on_cycle(he0, leader, x as usize));
        } else if seen_before[x] {
            let y = he0[x].next;
            assert(claim_ok(he0, he_before, seen_before, he, seen, leader, fi, length, y as int));
            assert(faces[he[x].face as int] == prior[he[x].face as int]);
        }
    }
    assert forall|f: int| 0 <= f < faces.len() implies #[trigger] face_ok(he0, he, faces, seen, f) by {
        if f < fi {
            assert(faces[f] == prior[f]);
            assert(face_ok(he0, he_before, prior, seen_before, f));
            let o = faces[f].outer_component;
            assert(claim_ok(he0, he_before, seen_before, he, seen, leader, fi, length, o as int));
            if on_walk(he0, leader, length, o) {
                let i = choose|i: nat| i < length && #[trigger] walk_next(he0, leader, i) == o;
                assert(!seen_before[o as int]);
            }
        } else {
            assert(claim_ok(he0, he_before, seen_before, he, seen, leader, fi, length, leader as int));
            assert(cycle_closes(he0, leader));
        }
    }
    assert forall|f: int, g: int| 0 <= f < g < faces.len() implies (#[trigger] faces[f]).outer_component < (
    #[trigger] faces[g]).outer_component by {
        assert(faces[f] == prior[f]);
        if g < fi {
            assert(faces[g] == prior[g]);
        }
    }
}

/// An edge list that stands in `face_labels` to a well-formed one without
/// faces is well formed.
proof fn lemma_labels_wf(start: DCEL, d: DCEL, seen: Seq<bool>)
    requires
        start.wf(),
        start.faces@.len() == 0,
        d.vertices@ == start.vertices@,
        d.faces@.len() < NIL,
        face_labels(start.halfedges@, d.halfedges@, d.faces@, seen),
    ensures
        d.wf(),
{
    let he0 = start.halfedges@;
    assert forall|e: int| 0 <= e < d.halfedges@.len() implies #[trigger] twin_ok(d.halfedges@, e) by {
        assert(twin_ok(he0, e));
        assert(label_ok(he0, d.halfedges@, d.faces@, seen, e));
        assert(label_ok(he0, d.halfedges@, d.faces@, seen, he0[e].twin as int));
    }
    assert forall|e: int| 0 <= e < d.halfedges@.len() implies #[trigger] links_ok(
        d.halfedges@,
        e,
        d.vertices@.len() as int,
        d.faces@.len() as int,
    ) by {
        assert(links_ok(start.halfedges@, e, start.vertices@.len() as int, start.faces@.len() as int));
        assert(label_ok(he0, d.halfedges@, d.faces@, seen, e));
    }
    assert forall|f: int| 0 <= f < d.faces@.len() implies (#[trigger] d.faces@[f]).outer_component
        < d.halfedges@.len() by {
        assert(face_ok(he0, d.halfedges@, d.faces@, seen, f));
    }
}

/// `face_labels` gives what `add_faces` promises to leave unchanged.
proof fn lemma_faces_added(start: DCEL, d: DCEL, seen: Seq<bool>)
    requires
        start.wf(),
        d.vertices@ == start.vertices@,
        face_labels(start.halfedges@, d.halfedges@, d.faces@, seen),
    ensures
        faces_added(start, d),
{
    let he0 = start.halfedges@;
    lemma_same_walks(he0, d.halfedges@, d.faces@, seen);
    assert forall|x: int| 0 <= x < he0.len() implies {
        &&& (#[trigger] d.halfedges@[x]).origin == he0[x].origin
        &&& d.halfedges@[x].twin == he0[x].twin
        &&& d.halfedges@[x].next == he0[x].next
        &&& d.halfedges@[x].prev == he0[x].prev
        &&& d.halfedges@[x].alive == he0[x].alive
        &&& d.halfedges@[x].face == he0[x].face || (d.halfedges@[x].face < d.faces@.len() && on_cycle(
            d.halfedges@,
            d.faces@[d.halfedges@[x].face as int].outer_component,
            x as usize,
        ))
    } by {
        assert(label_ok(he0, d.halfedges@, d.faces@, seen, x));
    }
}

/// Once every live half-edge has been claimed, the faces are closed and
/// cover the live half-edges, and each boundary has one face.
proof fn lemma_faces_done(start: DCEL, d: DCEL, seen: Seq<bool>)
    requires
        start.wf(),
        start.faces@.len() == 0,
        face_labels(start.halfedges@, d.halfedges@, d.faces@, seen),
        forall|x: int| 0 <= x < start.halfedges@.len() && (#[trigger] start.halfedges@[x]).alive ==> seen[x],
    ensures
        d.faces_closed(),
        d.faces_cover(),
        d.faces_follow(),
{
    let he0 = start.halfedges@;
    lemma_same_walks(he0, d.halfedges@, d.faces@, seen);
    assert forall|e: int| 0 <= e < d.halfedges@.len() && (#[trigger] d.halfedges@[e]).face != NIL implies {
        &&& d.halfedges@[e].next < d.halfedges@.len()
        &&& d.halfedges@[d.halfedges@[e].next as int].face == d.halfedges@[e].face
    } by {
        assert(label_ok(he0, d.halfedges@, d.faces@, seen, e));
        assert(links_ok(he0, e, start.vertices@.len() as int, start.faces@.len() as int));
    }
    assert forall|f: int| 0 <= f < d.faces@.len() implies {
        &&& (#[trigger] d.faces@[f]).alive
        &&& d.faces@[f].outer_component < d.halfedges@.len()
        &&& d.halfedges@[d.faces@[f].outer_component as int].alive
        &&& d.halfedges@[d.faces@[f].outer_component as int].face == f
        &&& cycle_closes(d.halfedges@, d.faces@[f].outer_component)
    } by {
        assert(face_ok(he0, d.halfedges@, d.faces@, seen, f));
        assert(label_ok(he0, d.halfedges@, d.faces@, seen, d.faces@[f].outer_component as int));
    }
    assert forall|e: int| 0 <= e < d.halfedges@.len() && (#[trigger] d.halfedges@[e]).alive implies {
        &&& d.halfedges@[e].face < d.faces@.len()
        &&& d.faces@[d.halfedges@[e].face as int].outer_component <= e
        &&& on_cycle(d.halfedges@, d.faces@[d.halfedges@[e].face as int].outer_component, e as usize)
    } by {
        assert(label_ok(he0, d.halfedges@, d.faces@, seen, e));
        assert(he0[e].alive);
        assert(seen[e]);
    }
}

/// Does the half-edge `e` stand for a line segment: is it live, with an
/// origin, and followed by a half-edge with an origin?
pub open spec fn has_segment(d: DCEL, e: int) -> bool {
    &&& d.halfedges@[e].origin != NIL
    &&& d.halfedges@[e].next != NIL
    &&& d.halfedges@[e].alive
    &&& d.halfedges@[d.halfedges@[e].next as int].origin != NIL
}

/// The end points of the segment that the half-edge `e` stands for.
pub open spec fn segment_of(d: DCEL, e: int) -> Seq<Point> {
    seq![
        d.vertices@[d.halfedges@[e].origin as int].coordinates,
        d.vertices@[d.halfedges@[d.halfedges@[e].next as int].origin as int].coordinates,
    ]
}

/// The segments of the pairs among the first `k` half-edges, in the order
/// of the half-edges: one for each half-edge that stands for a segment and
/// for its pair.
pub open spec fn segments_upto(d: DCEL, k: nat) -> Seq<Seq<Point>>
    decreases k,
{
    if k == 0 {
        Seq::empty()
    } else if has_segment(d, k - 1) && is_candidate(d, k - 1) {
        segments_upto(d, (k - 1) as nat).push(segment_of(d, k - 1))
    } else {
        segments_upto(d, (k - 1) as nat)
    }
}

/// Where `next` and `prev` undo each other, every half-edge has an origin
/// and every live half-edge ends where its `next` starts, each live
/// half-edge stands for a segment, which runs from its origin to the origin
/// of its twin.
pub proof fn lemma_segment_of_pair(d: DCEL, e: int)
    requires
        d.wf(),
        d.links_closed(),
        d.origins_set(),
        d.chained(),
        0 <= e < d.halfedges@.len(),
        d.halfedges@[e].alive,
    ensures
        has_segment(d, e),
        segment_of(d, e) == edge_ends(d, e),
{
    assert(closed_at(d.halfedges@, e));
    assert(chained_at(d.halfedges@, e));
    assert(twin_ok(d.halfedges@, e));
    assert(d.halfedges@[d.halfedges@[e].next as int].origin < d.vertices@.len());
    assert(d.halfedges@[e].origin < d.vertices@.len());
}

/// Constructs the line segments of the Voronoi diagram: one for each pair
/// of live half-edges, from the half-edge of the pair with the lower index.
pub fn make_line_segments(dcel: &DCEL) -> (result: Vec<Segment>)
    requires
        dcel.wf(),
    ensures
        result@.len() == segments_upto(*dcel, dcel.halfedges@.len()).len(),
        forall|i: int|
            0 <= i < result@.len() ==> (#[trigger] result@[i])@ == segments_upto(
                *dcel,
                dcel.halfedges@.len(),
            )[i],
{
    let mut result: Vec<Segment> = Vec::new();
    let n = dcel.halfedges.len();
    let mut e: usize = 0;
    while e < n
        invariant
            e <= n,
            n == dcel.halfedges@.len(),
            dcel.wf(),
            result@.len() == segments_upto(*dcel, e as nat).len(),
            forall|i: int|
                0 <= i < result@.len() ==> (#[trigger] result@[i])@ == segments_upto(*dcel, e as nat)[i],
        decreases n - e,
    {
        let halfedge = dcel.halfedges[e];
        proof {
            assert(links_ok(
                dcel.halfedges@,
                e as int,
                dcel.vertices@.len() as int,
                dcel.faces@.len() as int,
            ));
        }
        if halfedge.origin != NIL && halfedge.next != NIL && halfedge.alive {
            proof {
                assert(links_ok(
                    dcel.halfedges@,
                    halfedge.next as int,
                    dcel.vertices@.len() as int,
                    dcel.faces@.len() as int,
                ));
                assert(twin_ok(dcel.halfedges@, e as int));
            }
            let stands = !(halfedge.twin < e && dcel.halfedges[halfedge.twin].alive);
            if stands && dcel.halfedges[halfedge.next].origin != NIL {
                let seg: Segment = [dcel.vertices[halfedge.origin].coordinates, dcel.get_origin(halfedge.next)];
                proof {
                    assert(seg@ =~= segment_of(*dcel, e as int));
                }
                result.push(seg);
            }
        }
        e += 1;
    }
    result
}

impl DCEL {
    /// Every half-edge starts at a vertex.
    pub open spec fn origins_set(&self) -> bool {
        forall|e: int|
            0 <= e < self.halfedges@.len() ==> (#[trigger] self.halfedges@[e]).origin < self.vertices@.len()
    }

    /// Tests whether every half-edge starts at a vertex.
    pub fn check_origins(&self) -> (r: bool)
        ensures
            r == self.origins_set(),
    {
        let n = self.halfedges.len();
        let mut e: usize = 0;
        while e < n
            invariant
                e <= n,
                n == self.halfedges@.len(),
                forall|x: int| 0 <= x < e ==> (#[trigger] self.halfedges@[x]).origin < self.vertices@.len(),
            decreases n - e,
        {
            if self.halfedges[e].origin >= self.vertices.len() {
                return false;
            }
            e += 1;
        }
        true
    }
}

/// If the half-edge `e` is live, it has a `next`, which starts where `e`
/// ends: at the origin of the twin of `e`.
pub open spec fn chained_at(he: Seq<HalfEdge>, e: int) -> bool {
    he[e].alive ==> he[e].next < he.len() && he[he[e].next as int].origin == he[he[e].twin as int].origin
}

impl DCEL {
    /// Every live half-edge ends where its `next` starts.
    pub open spec fn chained(&self) -> bool {
        forall|e: int| 0 <= e < self.halfedges@.len() ==> #[trigger] chained_at(self.halfedges@, e)
    }

    /// The `next` and the `prev` of every live half-edge are live
    /// half-edges.
    pub open spec fn live_links(&self) -> bool {
        forall|e: int|
            0 <= e < self.halfedges@.len() && (#[trigger] self.halfedges@[e]).alive ==> {
                &&& self.halfedges@[e].next < self.halfedges@.len()
                &&& self.halfedges@[e].prev < self.halfedges@.len()
                &&& self.halfedges@[self.halfedges@[e].next as int].alive
                &&& self.halfedges@[self.halfedges@[e].prev as int].alive
            }
    }

    /// The incident half-edge of every vertex starts at that vertex.
    pub open spec fn anchored(&self) -> bool {
        forall|v: int|
            0 <= v < self.vertices@.len() ==> (#[trigger] self.vertices@[v]).incident_edge < self.halfedges@.len()
                && self.halfedges@[self.vertices@[v].incident_edge as int].origin == v
    }

    /// Tests whether every live half-edge ends where its `next` starts.
    pub fn check_chains(&self) -> (r: bool)
        requires
            self.wf(),
        ensures
            r == self.chained(),
    {
        let n = self.halfedges.len();
        let mut e: usize = 0;
        while e < n
            invariant
                e <= n,
                n == self.halfedges@.len(),
                self.wf(),
                forall|x: int| 0 <= x < e ==> #[trigger] chained_at(self.halfedges@, x),
            decreases n - e,
        {
            let he = self.halfedges[e];
            proof {
                assert(twin_ok(self.halfedges@, e as int));
            }
            if he.alive {
                if he.next >= n {
                    proof {
                        assert(!chained_at(self.halfedges@, e as int));
                    }
                    return false;
                }
                if self.halfedges[he.next].origin != self.halfedges[he.twin].origin {
                    proof {
                        assert(!chained_at(self.halfedges@, e as int));
                    }
                    return false;
                }
            }
            e += 1;
        }
        true
    }
}

/// The number of steps after which the walk along `next` from `e` is first
/// back at `e`.
pub open spec fn cycle_len(he: Seq<HalfEdge>, e: usize) -> nat {
    choose|k: nat| k <= he.len() && #[trigger] cycle_of(he, e, k)
}

/// The corners of the boundary that starts with the half-edge `e`: the
/// origins of the half-edges on the walk along `next` from `e`, up to its
/// return to `e`.
pub open spec fn polygon_of(d: DCEL, e: usize) -> Seq<Point> {
    Seq::new(
        cycle_len(d.halfedges@, e),
        |j: int| d.vertices@[d.halfedges@[walk_next(d.halfedges@, e, j as nat) as int].origin as int].coordinates,
    )
}

/// The boundaries of the live faces among the first `k` faces, in the order
/// of the faces.
pub open spec fn polygons_upto(d: DCEL, k: nat) -> Seq<Seq<Point>>
    decreases k,
{
    if k == 0 {
        Seq::empty()
    } else if d.faces@[k - 1].alive {
        polygons_upto(d, (k - 1) as nat).push(polygon_of(d, d.faces@[k - 1].outer_component))
    } else {
        polygons_upto(d, (k - 1) as nat)
    }
}

/// Where a polygon with `corners` corners goes into a list that is sorted by
/// the number of corners: behind every polygon that has no more corners
/// than it.
pub open spec fn slot_by_len(sorted: Seq<Seq<Point>>, corners: nat) -> int
    decreases sorted.len(),
{
    if sorted.len() == 0 {
        0
    } else if sorted.last().len() <= corners {
        sorted.len() as int
    } else {
        slot_by_len(sorted.drop_last(), corners)
    }
}

/// The polygons sorted by their number of corners, those with equally many
/// in the order in which they came.
pub open spec fn sorted_by_len(polys: Seq<Seq<Point>>) -> Seq<Seq<Point>>
    decreases polys.len(),
{
    if polys.len() == 0 {
        Seq::empty()
    } else {
        let rest = sorted_by_len(polys.drop_last());
        rest.insert(slot_by_len(rest, polys.last().len()), polys.last())
    }
}

/// The corners of each polygon of a list.
pub open spec fn corners(polys: Seq<Vec<Point>>) -> Seq<Seq<Point>> {
    Seq::new(polys.len(), |i: int| polys[i]@)
}

/// `slot_by_len` is a place of the list or its end.
pub proof fn lemma_slot_in_range(sorted: Seq<Seq<Point>>, corners: nat)
    ensures
        0 <= slot_by_len(sorted, corners) <= sorted.len(),
    decreases sorted.len(),
{
    if sorted.len() > 0 && sorted.last().len() > corners {
        lemma_slot_in_range(sorted.drop_last(), corners);
    }
}

/// Sorting keeps the number of polygons.
pub proof fn lemma_sorted_len(polys: Seq<Seq<Point>>)
    ensures
        sorted_by_len(polys).len() == polys.len(),
    decreases polys.len(),
{
    if polys.len() > 0 {
        lemma_sorted_len(polys.drop_last());
        lemma_slot_in_range(sorted_by_len(polys.drop_last()), polys.last().len());
    }
}

/// The boundaries of the live faces, sorted by their number of corners,
/// without the last, which is taken to be the unbounded outer face.
pub open spec fn polygons(d: DCEL) -> Seq<Seq<Point>> {
    if polygons_upto(d, d.faces@.len()).len() == 0 {
        Seq::<Seq<Point>>::empty()
    } else {
        sorted_by_len(polygons_upto(d, d.faces@.len())).drop_last()
    }
}

/// Constructs the faces of the Voronoi diagram.
///
/// The boundaries of the live faces are sorted by their number of corners,
/// and the last, which is taken to be the unbounded outer face, is left out.
pub fn make_polygons(dcel: &DCEL) -> (result: Vec<Vec<Point>>)
    requires
        dcel.wf(),
        dcel.origins_set(),
        dcel.boundaries_close(),
    ensures
        corners(result@) == polygons(*dcel),
{
    let mut result: Vec<Vec<Point>> = Vec::new();
    let num_faces = dcel.faces.len();
    let mut f: usize = 0;
    while f < num_faces
        invariant
            f <= num_faces,
            num_faces == dcel.faces@.len(),
            dcel.wf(),
            dcel.origins_set(),
            forall|g: int|
                0 <= g < dcel.faces@.len() && (#[trigger] dcel.faces@[g]).alive ==> cycle_closes(
                    dcel.halfedges@,
                    dcel.faces@[g].outer_component,
                ),
            corners(result@) == sorted_by_len(polygons_upto(*dcel, f as nat)),
        decreases num_faces - f,
    {
        let face = dcel.faces[f];
        if face.alive {
            let mut this_poly: Vec<Point> = Vec::new();
            let start_edge = face.outer_component;
            let mut current_edge = start_edge;
            let ghost he = dcel.halfedges@;
            let ghost length = cycle_len(he, start_edge);
            proof {
                assert(cycle_closes(he, start_edge));
                assert(length <= he.len() && cycle_of(he, start_edge, length));
            }
            loop
                invariant_except_break
                    this_poly@.len() < length,
                    current_edge < he.len(),
                invariant
                    dcel.wf(),
                    dcel.origins_set(),
                    he == dcel.halfedges@,
                    start_edge < he.len(),
                    length <= he.len(),
                    cycle_of(he, start_edge, length),
                    current_edge == walk_next(he, start_edge, this_poly@.len()),
                    forall|j: int|
                        0 <= j < this_poly@.len() ==> #[trigger] this_poly@[j] == polygon_of(
                            *dcel,
                            start_edge,
                        )[j],
                ensures
                    this_poly@ == polygon_of(*dcel, start_edge),
                decreases length - this_poly@.len(),
            {
                this_poly.push(dcel.get_origin(current_edge));
                let ghost steps = this_poly@.len();
                current_edge = dcel.halfedges[current_edge].next;
                proof {
                    assert(current_edge == walk_next(he, start_edge, steps));
                    if steps < length {
                        assert(walk_next(he, start_edge, steps) != start_edge);
                        if current_edge >= he.len() {
                            lemma_walk_next_out(he, start_edge, steps, length);
                        }
                    }
                }
                if current_edge == start_edge {
                    proof {
                        assert(steps == length);
                        assert(this_poly@ =~= polygon_of(*dcel, start_edge));
                    }
                    break ;
                }
            }
            // keep the list sorted: the polygon goes behind those with no more corners
            let mut slot = result.len();
            proof {
                lemma_sorted_len(polygons_upto(*dcel, f as nat));
                assert(corners(result@).subrange(0, slot as int) =~= corners(result@));
            }
            while slot > 0 && result[slot - 1].len() > this_poly.len()
                invariant
                    slot <= result@.len(),
                    slot_by_len(corners(result@), this_poly@.len()) == slot_by_len(
                        corners(result@).subrange(0, slot as int),
                        this_poly@.len(),
                    ),
                decreases slot,
            {
                proof {
                    let part = corners(result@).subrange(0, slot as int);
                    assert(part.last() == result@[slot - 1]@);
                    assert(part.drop_last() =~= corners(result@).subrange(0, slot - 1));
                }
                slot -= 1;
            }
            proof {
                let part = corners(result@).subrange(0, slot as int);
                if slot > 0 {
                    assert(part.last() == result@[slot - 1]@);
                }
                assert(slot_by_len(part, this_poly@.len()) == slot);
                assert(polygons_upto(*dcel, (f + 1) as nat).drop_last() =~= polygons_upto(*dcel, f as nat));
            }
            let ghost before = corners(result@);
            let ghost poly = this_poly@;
            result.insert(slot, this_poly);
            proof {
                assert(corners(result@) =~= before.insert(slot as int, poly));
            }
        }
        f += 1;
    }

    // remove the outer face
    let ghost all = corners(result@);
    result.pop();
    proof {
        lemma_sorted_len(polygons_upto(*dcel, dcel.faces@.len()));
        if all.len() > 0 {
            assert(corners(result@) =~= all.drop_last());
        } else {
            assert(corners(result@) =~= Seq::<Seq<Point>>::empty());
        }
    }
    result
}

/// A crossing of a line with the edge list: the point, and the half-edge
/// that the line crosses there.
pub type Crossing = (Point, usize);

/// A half-edge without links, starting at `origin` and paired with `twin`.
pub open spec fn bare_edge(origin: usize, twin: usize, next: usize) -> HalfEdge {
    HalfEdge { origin, twin, next, face: NIL, prev: NIL, alive: true }
}

/// The half-edges after a line has been begun: a twin pair is added, the
/// first of the two starting at the new vertex and the second leading back
/// into the first.
pub open spec fn line_begun(he: Seq<HalfEdge>, vertices: nat) -> Seq<HalfEdge> {
    let t = he.len() as usize;
    he.push(bare_edge(vertices as usize, (t + 1) as usize, NIL)).push(bare_edge(NIL, t, t))
}

/// The half-edges after the line whose open end is the pair `needs_next`,
/// `needs_prev` has been carried across the half-edge `cut` at a new vertex:
/// the half-edge `cut` and its twin each end at the vertex and are continued
/// beyond it by a new half-edge, the line ends at the vertex and is
/// continued beyond it by a new twin pair, and around the vertex each of the
/// four arriving half-edges leads into the leaving half-edge to its left.
pub open spec fn line_cut(
    he: Seq<HalfEdge>,
    vertices: nat,
    needs_next: usize,
    needs_prev: usize,
    cut: usize,
) -> Seq<HalfEdge> {
    let t = he.len() as usize;
    let v = vertices as usize;
    let s1 = he.push(bare_edge(v, (t + 1) as usize, NIL)).push(bare_edge(NIL, t, NIL));
    let s2 = s1.update(needs_prev as int, HalfEdge { origin: v, ..s1[needs_prev as int] });
    let old_cut_next = s2[cut as int].next;
    let old_cut_twin = s2[cut as int].twin;
    let s3 = s2.update(cut as int, HalfEdge { next: needs_prev, ..s2[cut as int] });
    let s4 = s3.push(bare_edge(v, old_cut_twin, old_cut_next));
    let s5 = s4.update(needs_next as int, HalfEdge { next: (t + 2) as usize, ..s4[needs_next as int] });
    let old_twin_next = s5[old_cut_twin as int].next;
    let s6 = s5.update(old_cut_twin as int, HalfEdge { next: t, ..s5[old_cut_twin as int] });
    let s7 = s6.push(bare_edge(v, cut, old_twin_next));
    let s8 = s7.update((t + 1) as int, HalfEdge { next: (t + 3) as usize, ..s7[t + 1] });
    let s9 = s8.update(cut as int, HalfEdge { twin: (t + 3) as usize, ..s8[cut as int] });
    s9.update(old_cut_twin as int, HalfEdge { twin: (t + 2) as usize, ..s9[old_cut_twin as int] })
}

/// The half-edges after a line has been ended at a new vertex: the open
/// end turns round there.
pub open spec fn line_ended(he: Seq<HalfEdge>, vertices: nat, needs_next: usize, needs_prev: usize) -> Seq<
    HalfEdge,
> {
    let s1 = he.update(needs_next as int, HalfEdge { next: needs_prev, ..he[needs_next as int] });
    s1.update(needs_prev as int, HalfEdge { origin: vertices as usize, ..s1[needs_prev as int] })
}

/// The half-edges after a line that was begun has been carried across the
/// half-edges of `cuts`, first to last.
pub open spec fn line_carried(he: Seq<HalfEdge>, vertices: nat, cuts: Seq<Crossing>) -> Seq<HalfEdge>
    decreases cuts.len(),
{
    if cuts.len() == 0 {
        line_begun(he, vertices)
    } else {
        let so_far = line_carried(he, vertices, cuts.drop_last());
        line_cut(
            so_far,
            vertices + cuts.len(),
            open_next(so_far.len() as int, cuts.len() - 1) as usize,
            open_prev(so_far.len() as int, cuts.len() - 1) as usize,
            cuts.last().1,
        )
    }
}

/// The half-edge at the open end of a line that still needs a `next`,
/// among `len` half-edges of which the last were added by `cuts` crossings.
pub open spec fn open_next(len: int, cuts: int) -> int {
    if cuts == 0 {
        len - 2
    } else {
        len - 4
    }
}

/// The half-edge at the open end of a line that still needs an origin.
pub open spec fn open_prev(len: int, cuts: int) -> int {
    if cuts == 0 {
        len - 1
    } else {
        len - 3
    }
}

/// The half-edges after a line from `start` has been laid across the
/// half-edges of `cuts`, first to last, and ended.
pub open spec fn line_laid(he: Seq<HalfEdge>, vertices: nat, cuts: Seq<Crossing>) -> Seq<HalfEdge> {
    let carried = line_carried(he, vertices, cuts);
    line_ended(
        carried,
        vertices + cuts.len() + 1,
        open_next(carried.len() as int, cuts.len() as int) as usize,
        open_prev(carried.len() as int, cuts.len() as int) as usize,
    )
}

/// The vertices after a line from `start` to `end` has been laid across
/// `cuts`: a vertex at the start, one at each crossing, and one at the end.
pub open spec fn line_vertices(
    vertices: Seq<Vertex>,
    edges: nat,
    start: Point,
    end: Point,
    cuts: Seq<Crossing>,
) -> Seq<Vertex> {
    vertices + Seq::new(
        cuts.len() + 2,
        |i: int|
            if i == 0 {
                Vertex { coordinates: start, incident_edge: edges as usize, alive: true }
            } else if i <= cuts.len() {
                Vertex {
                    coordinates: cuts[i - 1].0,
                    incident_edge: (edges + 2 + 4 * (i - 1)) as usize,
                    alive: true,
                }
            } else {
                Vertex {
                    coordinates: end,
                    incident_edge: open_prev(edges + 2 + 4 * cuts.len() as int, cuts.len() as int) as usize,
                    alive: true,
                }
            },
    )
}

impl DCEL {
    /// Every half-edge but `except` starts at a vertex.
    pub open spec fn origins_set_but(&self, except: usize) -> bool {
        forall|e: int|
            0 <= e < self.halfedges@.len() && e != except ==> (#[trigger] self.halfedges@[e]).origin
                < self.vertices@.len()
    }

    /// Begins a line at `start_pt`. Returns the half-edge of the line that
    /// still needs a `next` and the one that still needs an origin.
    fn begin_line(&mut self, start_pt: Point) -> (r: (usize, usize))
        requires
            old(self).wf(),
            old(self).origins_set(),
            old(self).halfedges@.len() + 2 < NIL,
            old(self).vertices@.len() + 1 < NIL,
        ensures
            final(self).wf(),
            final(self).origins_set_but(r.1),
            final(self).halfedges@ == line_begun(old(self).halfedges@, old(self).vertices@.len()),
            final(self).vertices@ == old(self).vertices@.push(
                Vertex {
                    coordinates: start_pt,
                    incident_edge: old(self).halfedges@.len() as usize,
                    alive: true,
                },
            ),
            final(self).faces@ == old(self).faces@,
            r.0 == old(self).halfedges@.len(),
            r.1 == old(self).halfedges@.len() + 1,
            old(self).next_bijective() ==> final(self).line_open(r.1),
    {
        let t = self.halfedges.len();
        let v = self.vertices.len();
        self.halfedges.push(HalfEdge { origin: v, twin: t + 1, next: NIL, face: NIL, prev: NIL, alive: true });
        self.halfedges.push(HalfEdge { origin: NIL, twin: t, next: t, face: NIL, prev: NIL, alive: true });
        self.vertices.push(Vertex { coordinates: start_pt, incident_edge: t, alive: true });
        proof {
            if old(self).next_bijective() {
                let he = old(self).halfedges@;
                let back = choose|back: Seq<int>| #[trigger] linked(he, back, no_tracer(he.len()));
                let grown = back.push(t + 1).push(-1);
                let tracer = one_tracer(self.halfedges@.len(), t + 1);
                assert forall|x: int| 0 <= x < self.halfedges@.len() implies #[trigger] link_ok(
                    self.halfedges@,
                    grown,
                    tracer,
                    x,
                ) by {
                    if x < t {
                        assert(link_ok(he, back, no_tracer(he.len()), x));
                        assert(twin_ok(he, x));
                        if back[x] != -1 {
                            assert(link_ok(he, back, no_tracer(he.len()), back[x]));
                        }
                    }
                }
                assert(linked(self.halfedges@, grown, tracer));
                assert forall|x: int| 0 <= x < self.halfedges@.len() implies #[trigger] origin_ok(
                    self.halfedges@,
                    tracer,
                    x,
                ) by {
                    if x < t {
                        assert(origin_ok(he, no_tracer(he.len()), x));
                        assert(twin_ok(he, x));
                        assert(link_ok(he, back, no_tracer(he.len()), x));
                    }
                }
                assert forall|v: int| 0 <= v < self.vertices@.len() implies #[trigger] vertex_ok(
                    self.halfedges@,
                    self.vertices@,
                    v,
                ) by {
                    if v < old(self).vertices@.len() {
                        assert(vertex_ok(he, old(self).vertices@, v));
                        let s = old(self).vertices@[v].incident_edge as int;
                        assert(twin_ok(he, s));
                    }
                }
            }
            assert(self.halfedges@ =~= line_begun(old(self).halfedges@, old(self).vertices@.len()));
            assert forall|e: int| 0 <= e < self.halfedges@.len() implies #[trigger] twin_ok(
                self.halfedges@,
                e,
            ) by {
                if e < t {
                    assert(twin_ok(old(self).halfedges@, e));
                }
            }
            assert forall|e: int| 0 <= e < self.halfedges@.len() implies #[trigger] links_ok(
                self.halfedges@,
                e,
                self.vertices@.len() as int,
                self.faces@.len() as int,
            ) by {
                if e < t {
                    assert(links_ok(
                        old(self).halfedges@,
                        e,
                        old(self).vertices@.len() as int,
                        old(self).faces@.len() as int,
                    ));
                }
            }
        }
        (t, t + 1)
    }

    /// Carries a line across the half-edge `cut` at the point `int_pt`.
    /// Returns the half-edge of the line that now needs a `next` and the
    /// one that now needs an origin.
    fn cut_line(&mut self, needs_next: usize, needs_prev: usize, int_pt: Point, cut: usize) -> (r: (
        usize,
        usize,
    ))
        requires
            old(self).wf(),
            old(self).origins_set_but(needs_prev),
            needs_next < old(self).halfedges@.len(),
            needs_prev < old(self).halfedges@.len(),
            cut < old(self).halfedges@.len(),
            old(self).halfedges@.len() + 4 < NIL,
            old(self).vertices@.len() + 1 < NIL,
        ensures
            final(self).wf(),
            final(self).origins_set_but(r.1),
            final(self).halfedges@ == line_cut(
                old(self).halfedges@,
                old(self).vertices@.len(),
                needs_next,
                needs_prev,
                cut,
            ),
            final(self).halfedges@.len() == old(self).halfedges@.len() + 4,
            final(self).vertices@ == old(self).vertices@.push(
                Vertex {
                    coordinates: int_pt,
                    incident_edge: old(self).halfedges@.len() as usize,
                    alive: true,
                },
            ),
            final(self).faces@ == old(self).faces@,
            r.0 == old(self).halfedges@.len(),
            r.1 == old(self).halfedges@.len() + 1,
            final(self).halfedges@[r.1 as int].twin == r.0,
            old(self).line_open(needs_prev) && old(self).halfedges@[needs_prev as int].twin == needs_next
                && cut != needs_next && cut != needs_prev ==> final(self).line_open(r.1),
    {
        let t = self.halfedges.len();
        let v = self.vertices.len();
        proof {
            assert(twin_ok(self.halfedges@, cut as int));
        }
        self.halfedges.push(HalfEdge { origin: v, twin: t + 1, next: NIL, face: NIL, prev: NIL, alive: true });
        self.halfedges.push(HalfEdge { origin: NIL, twin: t, next: NIL, face: NIL, prev: NIL, alive: true });
        self.vertices.push(Vertex { coordinates: int_pt, incident_edge: t, alive: true });

        let mut he = self.halfedges[needs_prev];
        he.origin = v;
        self.halfedges.set(needs_prev, he);

        let old_cut_next = self.halfedges[cut].next;
        let old_cut_twin = self.halfedges[cut].twin;
        let mut he = self.halfedges[cut];
        he.next = needs_prev;
        self.halfedges.set(cut, he);

        let cut_ext_ind = self.halfedges.len();
        self.halfedges.push(
            HalfEdge { origin: v, next: old_cut_next, twin: old_cut_twin, face: NIL, prev: NIL, alive: true },
        );
        let mut he = self.halfedges[needs_next];
        he.next = cut_ext_ind;
        self.halfedges.set(needs_next, he);

        let old_twin_next = self.halfedges[old_cut_twin].next;
        let mut he = self.halfedges[old_cut_twin];
        he.next = t;
        self.halfedges.set(old_cut_twin, he);

        let twin_ext_ind = self.halfedges.len();
        self.halfedges.push(
            HalfEdge { origin: v, next: old_twin_next, twin: cut, face: NIL, prev: NIL, alive: true },
        );
        let mut he = self.halfedges[t + 1];
        he.next = twin_ext_ind;
        self.halfedges.set(t + 1, he);

        let mut he = self.halfedges[cut];
        he.twin = twin_ext_ind;
        self.halfedges.set(cut, he);
        let mut he = self.halfedges[old_cut_twin];
        he.twin = cut_ext_ind;
        self.halfedges.set(old_cut_twin, he);
        proof {
            assert(self.halfedges@ =~= line_cut(
                old(self).halfedges@,
                old(self).vertices@.len(),
                needs_next,
                needs_prev,
                cut,
            ));
            Self::lemma_line_cut_wf(*old(self), *self, needs_next, needs_prev, int_pt, cut);
            Self::lemma_line_cut_fields(
                old(self).halfedges@,
                old(self).vertices@.len(),
                needs_next,
                needs_prev,
                cut,
            );
            if old(self).line_open(needs_prev) && old(self).halfedges@[needs_prev as int].twin == needs_next
                && cut != needs_next && cut != needs_prev {
                Self::lemma_line_cut_open(*old(self), *self, needs_next, needs_prev, cut);
            }
        }
        (t, t + 1)
    }

    /// What carrying a line across a half-edge does to each half-edge that
    /// was there before, and what the four new half-edges are.
    pub proof fn lemma_line_cut_fields(
        he: Seq<HalfEdge>,
        vertices: nat,
        needs_next: usize,
        needs_prev: usize,
        cut: usize,
    )
        requires
            needs_next < he.len(),
            needs_prev < he.len(),
            cut < he.len(),
            he[cut as int].twin < he.len(),
            he.len() + 4 < NIL,
            vertices < NIL,
        ensures
            line_cut(he, vertices, needs_next, needs_prev, cut).len() == he.len() + 4,
            forall|x: int|
                0 <= x < he.len() ==> {
                    let after = #[trigger] line_cut(he, vertices, needs_next, needs_prev, cut)[x];
                    let twin = he[cut as int].twin;
                    &&& after.origin == if x == needs_prev {
                        vertices as usize
                    } else {
                        he[x].origin
                    }
                    &&& after.twin == if x == twin {
                        (he.len() + 2) as usize
                    } else if x == cut {
                        (he.len() + 3) as usize
                    } else {
                        he[x].twin
                    }
                    &&& (after.next == he[x].next || after.next == needs_prev || after.next == he.len()
                        || after.next == he.len() + 2)
                    &&& after.face == he[x].face
                    &&& after.prev == he[x].prev
                    &&& after.alive == he[x].alive
                },
            ({
                let after = line_cut(he, vertices, needs_next, needs_prev, cut);
                let t = he.len() as int;
                let twin = he[cut as int].twin;
                &&& after[t].origin == vertices
                &&& after[t].twin == t + 1
                &&& after[t].next == NIL
                &&& after[t + 1].origin == NIL
                &&& after[t + 1].twin == t
                &&& after[t + 1].next == t + 3
                &&& after[t + 2].origin == vertices
                &&& after[t + 2].twin == twin
                &&& after[t + 2].next == he[cut as int].next
                &&& after[t + 3].origin == vertices
                &&& after[t + 3].twin == cut
                &&& (after[t + 3].next == he[twin as int].next || after[t + 3].next == needs_prev
                    || after[t + 3].next == t + 2)
                &&& forall|k: int|
                    t <= k < t + 4 ==> {
                        &&& (#[trigger] after[k]).face == NIL
                        &&& after[k].prev == NIL
                        &&& after[k].alive
                    }
            }),
    {
        let t = he.len() as usize;
        let v = vertices as usize;
        let s1 = he.push(bare_edge(v, (t + 1) as usize, NIL)).push(bare_edge(NIL, t, NIL));
        let s2 = s1.update(needs_prev as int, HalfEdge { origin: v, ..s1[needs_prev as int] });
        let old_cut_next = s2[cut as int].next;
        let old_cut_twin = s2[cut as int].twin;
        let s3 = s2.update(cut as int, HalfEdge { next: needs_prev, ..s2[cut as int] });
        let s4 = s3.push(bare_edge(v, old_cut_twin, old_cut_next));
        let s5 = s4.update(needs_next as int, HalfEdge { next: (t + 2) as usize, ..s4[needs_next as int] });
        let old_twin_next = s5[old_cut_twin as int].next;
        let s6 = s5.update(old_cut_twin as int, HalfEdge { next: t, ..s5[old_cut_twin as int] });
        let s7 = s6.push(bare_edge(v, cut, old_twin_next));
        let s8 = s7.update((t + 1) as int, HalfEdge { next: (t + 3) as usize, ..s7[t + 1] });
        let s9 = s8.update(cut as int, HalfEdge { twin: (t + 3) as usize, ..s8[cut as int] });
        let s10 = s9.update(old_cut_twin as int, HalfEdge { twin: (t + 2) as usize, ..s9[old_cut_twin as int] });
        assert(s10 == line_cut(he, vertices, needs_next, needs_prev, cut));
        assert(old_cut_twin == he[cut as int].twin);
        assert(old_cut_next == he[cut as int].next);
        assert forall|x: int| 0 <= x < he.len() implies {
            let after = #[trigger] s10[x];
            &&& after.origin == if x == needs_prev {
                v
            } else {
                he[x].origin
            }
            &&& after.twin == if x == old_cut_twin {
                (t + 2) as usize
            } else if x == cut {
                (t + 3) as usize
            } else {
                he[x].twin
            }
            &&& (after.next == he[x].next || after.next == needs_prev || after.next == t || after.next == t
                + 2)
            &&& after.face == he[x].face
            &&& after.prev == he[x].prev
            &&& after.alive == he[x].alive
        } by {
            assert(s2[x].twin == he[x].twin && s2[x].next == he[x].next);
            assert(s3[x].twin == he[x].twin);
            assert(s5[x].twin == he[x].twin);
            assert(s6[x].twin == he[x].twin);
            assert(s8[x].twin == he[x].twin);
            assert(s8[x].origin == s2[x].origin);
            assert(s8[x].next == s6[x].next);
        }
        assert(s10[t as int] == s1[t as int]);
        assert(s10[t + 2] == HalfEdge { twin: s10[t + 2].twin, ..s4[t + 2] });
        assert(s10[t + 3] == s7[t + 3]);
        assert(s5[old_cut_twin as int].next == he[old_cut_twin as int].next || s5[old_cut_twin as int].next
            == needs_prev || s5[old_cut_twin as int].next == t + 2);
    }

    /// Where a line is carried across a half-edge that is neither at the
    /// open end of the line nor the twin of the one that is, what the `next`
    /// of each half-edge is afterwards.
    pub proof fn lemma_line_cut_next(
        he: Seq<HalfEdge>,
        vertices: nat,
        needs_next: usize,
        needs_prev: usize,
        cut: usize,
    )
        requires
            needs_next < he.len(),
            needs_prev < he.len(),
            cut < he.len(),
            he[cut as int].twin < he.len(),
            he[cut as int].twin != cut,
            cut != needs_next,
            he[cut as int].twin != needs_next,
            he.len() + 4 < NIL,
            vertices < NIL,
        ensures
            forall|x: int|
                0 <= x < he.len() ==> (#[trigger] line_cut(he, vertices, needs_next, needs_prev, cut)[x]).next
                    == if x == cut {
                    needs_prev
                } else if x == he[cut as int].twin {
                    he.len() as usize
                } else if x == needs_next {
                    (he.len() + 2) as usize
                } else {
                    he[x].next
                },
            ({
                let after = line_cut(he, vertices, needs_next, needs_prev, cut);
                let t = he.len() as int;
                &&& after[t].next == NIL
                &&& after[t + 1].next == t + 3
                &&& after[t + 2].next == he[cut as int].next
                &&& after[t + 3].next == he[he[cut as int].twin as int].next
            }),
    {
        let t = he.len() as usize;
        let v = vertices as usize;
        let s1 = he.push(bare_edge(v, (t + 1) as usize, NIL)).push(bare_edge(NIL, t, NIL));
        let s2 = s1.update(needs_prev as int, HalfEdge { origin: v, ..s1[needs_prev as int] });
        let old_cut_next = s2[cut as int].next;
        let old_cut_twin = s2[cut as int].twin;
        let s3 = s2.update(cut as int, HalfEdge { next: needs_prev, ..s2[cut as int] });
        let s4 = s3.push(bare_edge(v, old_cut_twin, old_cut_next));
        let s5 = s4.update(needs_next as int, HalfEdge { next: (t + 2) as usize, ..s4[needs_next as int] });
        let old_twin_next = s5[old_cut_twin as int].next;
        let s6 = s5.update(old_cut_twin as int, HalfEdge { next: t, ..s5[old_cut_twin as int] });
        let s7 = s6.push(bare_edge(v, cut, old_twin_next));
        let s8 = s7.update((t + 1) as int, HalfEdge { next: (t + 3) as usize, ..s7[t + 1] });
        let s9 = s8.update(cut as int, HalfEdge { twin: (t + 3) as usize, ..s8[cut as int] });
        let s10 = s9.update(old_cut_twin as int, HalfEdge { twin: (t + 2) as usize, ..s9[old_cut_twin as int] });
        assert(s10 == line_cut(he, vertices, needs_next, needs_prev, cut));
        assert(old_cut_twin == he[cut as int].twin);
        assert(old_cut_next == he[cut as int].next);
        assert(old_twin_next == he[old_cut_twin as int].next);
        assert forall|x: int| 0 <= x < he.len() implies (#[trigger] s10[x]).next == if x == cut {
            needs_prev
        } else if x == old_cut_twin {
            t
        } else if x == needs_next {
            (t + 2) as usize
        } else {
            he[x].next
        } by {
            assert(s2[x].next == he[x].next);
            assert(s3[x].next == if x == cut { needs_prev } else { he[x].next });
            assert(s5[x].next == if x == needs_next { (t + 2) as usize } else { s3[x].next });
            assert(s6[x].next == if x == old_cut_twin { t } else { s5[x].next });
            assert(s8[x].next == s6[x].next);
            assert(s10[x].next == s8[x].next);
        }
        assert(s10[t as int].next == s1[t as int].next);
        assert(s10[t + 2].next == s4[t + 2].next);
        assert(s10[t + 3].next == s7[t + 3].next);
    }

    /// Carrying an open line across a half-edge leaves an open line.
    pub proof fn lemma_line_cut_open(before: DCEL, after: DCEL, needs_next: usize, needs_prev: usize, cut: usize)
        requires
            before.wf(),
            before.line_open(needs_prev),
            needs_next < before.halfedges@.len(),
            needs_prev < before.halfedges@.len(),
            cut < before.halfedges@.len(),
            before.halfedges@[needs_prev as int].twin == needs_next,
            cut != needs_next,
            cut != needs_prev,
            before.halfedges@.len() + 4 < NIL,
            before.vertices@.len() + 1 < NIL,
            after.halfedges@ == line_cut(
                before.halfedges@,
                before.vertices@.len(),
                needs_next,
                needs_prev,
                cut,
            ),
            after.vertices@.len() == before.vertices@.len() + 1,
            forall|v: int| 0 <= v < before.vertices@.len() ==> (#[trigger] after.vertices@[v]) == before.vertices@[v],
            after.vertices@[before.vertices@.len() as int].incident_edge == before.halfedges@.len(),
        ensures
            after.line_open((before.halfedges@.len() + 1) as usize),
    {
        let he = before.halfedges@;
        let n = he.len();
        let t = n as int;
        let tracer = one_tracer(n, needs_prev as int);
        let back = choose|back: Seq<int>| #[trigger] linked(he, back, tracer);
        assert(twin_ok(he, cut as int));
        assert(twin_ok(he, needs_prev as int));
        assert(twin_ok(he, needs_next as int));
        let oct = he[cut as int].twin;
        assert(twin_ok(he, oct as int));
        assert(oct != needs_next);
        assert(oct != needs_prev);
        Self::lemma_line_cut_fields(he, before.vertices@.len(), needs_next, needs_prev, cut);
        Self::lemma_line_cut_next(he, before.vertices@.len(), needs_next, needs_prev, cut);
        assert(link_ok(he, back, tracer, cut as int));
        assert(link_ok(he, back, tracer, oct as int));
        assert(link_ok(he, back, tracer, needs_next as int));
        assert(link_ok(he, back, tracer, needs_prev as int));
        let c1 = he[cut as int].next;
        let c2 = he[oct as int].next;
        assert(c1 != NIL && c2 != NIL);
        assert(link_ok(he, back, tracer, c1 as int));
        assert(link_ok(he, back, tracer, c2 as int));
        assert(c1 != c2);
        assert(c1 != needs_prev && c2 != needs_prev);
        let ah = after.halfedges@;
        let grown = Seq::new(
            (n + 4) as nat,
            |x: int|
                if x == needs_prev {
                    cut as int
                } else if x == t {
                    oct as int
                } else if x == t + 1 {
                    -1
                } else if x == t + 2 {
                    needs_next as int
                } else if x == t + 3 {
                    t + 1
                } else if x == c1 {
                    t + 2
                } else if x == c2 {
                    t + 3
                } else {
                    back[x]
                },
        );
        let marked = one_tracer((n + 4) as nat, t + 1);
        assert forall|x: int| 0 <= x < ah.len() implies #[trigger] link_ok(ah, grown, marked, x) by {
            if x < t {
                assert(link_ok(he, back, tracer, x));
                assert(twin_ok(he, x));
                let y = he[x].next;
                if y != NIL {
                    assert(link_ok(he, back, tracer, y as int));
                }
                if back[x] != -1 {
                    assert(link_ok(he, back, tracer, back[x]));
                }
            }
        }
        assert(linked(ah, grown, marked));
        let nv = before.vertices@.len() as int;
        assert(origin_ok(he, tracer, cut as int));
        assert(origin_ok(he, tracer, oct as int));
        assert(origin_ok(he, tracer, needs_next as int));
        assert(origin_ok(he, tracer, needs_prev as int));
        assert(links_ok(he, cut as int, nv, before.faces@.len() as int));
        assert(links_ok(he, oct as int, nv, before.faces@.len() as int));
        assert(links_ok(he, needs_next as int, nv, before.faces@.len() as int));
        assert forall|x: int| 0 <= x < ah.len() implies #[trigger] origin_ok(ah, marked, x) by {
            if x < t {
                assert(origin_ok(he, tracer, x));
                assert(link_ok(he, back, tracer, x));
                assert(twin_ok(he, x));
                assert(links_ok(he, x, nv, before.faces@.len() as int));
                let y = he[x].next;
                if y != NIL {
                    assert(origin_ok(he, tracer, y as int));
                    assert(links_ok(he, y as int, nv, before.faces@.len() as int));
                }
                let w = he[x].twin;
                assert(origin_ok(he, tracer, w as int));
                assert(links_ok(he, w as int, nv, before.faces@.len() as int));
            }
        }
        assert forall|v: int| 0 <= v < after.vertices@.len() implies #[trigger] vertex_ok(
            ah,
            after.vertices@,
            v,
        ) by {
            if v < nv {
                assert(vertex_ok(he, before.vertices@, v));
                let s = before.vertices@[v].incident_edge as int;
                assert(twin_ok(he, s));
                let w = he[s].twin as int;
                assert(twin_ok(he, w));
                assert(link_ok(he, back, tracer, s));
                assert(link_ok(he, back, tracer, w));
                assert(origin_ok(he, tracer, s));
                assert(origin_ok(he, tracer, w));
                assert(links_ok(he, w, nv, before.faces@.len() as int));
            }
        }
    }

    /// Carrying a line across a half-edge keeps the edge list well formed.
    pub proof fn lemma_line_cut_wf(
        before: DCEL,
        after: DCEL,
        needs_next: usize,
        needs_prev: usize,
        int_pt: Point,
        cut: usize,
    )
        requires
            before.wf(),
            before.origins_set_but(needs_prev),
            needs_next < before.halfedges@.len(),
            needs_prev < before.halfedges@.len(),
            cut < before.halfedges@.len(),
            before.halfedges@.len() + 4 < NIL,
            before.vertices@.len() + 1 < NIL,
            after.halfedges@ == line_cut(
                before.halfedges@,
                before.vertices@.len(),
                needs_next,
                needs_prev,
                cut,
            ),
            after.vertices@ == before.vertices@.push(
                Vertex {
                    coordinates: int_pt,
                    incident_edge: before.halfedges@.len() as usize,
                    alive: true,
                },
            ),
            after.faces@ == before.faces@,
        ensures
            after.wf(),
            after.origins_set_but((before.halfedges@.len() + 1) as usize),
    {
        let he = before.halfedges@;
        let t = he.len() as int;
        assert(twin_ok(he, cut as int));
        let twin = he[cut as int].twin;
        assert(twin_ok(he, twin as int));
        Self::lemma_line_cut_fields(he, before.vertices@.len(), needs_next, needs_prev, cut);
        assert(links_ok(he, cut as int, before.vertices@.len() as int, before.faces@.len() as int));
        assert(links_ok(he, twin as int, before.vertices@.len() as int, before.faces@.len() as int));
        assert forall|e: int| 0 <= e < after.halfedges@.len() implies #[trigger] twin_ok(
            after.halfedges@,
            e,
        ) by {
            if e < t {
                assert(twin_ok(he, e));
                let o = he[e].twin;
                assert(twin_ok(he, o as int));
                assert(after.halfedges@[o as int].twin == if o == twin {
                    (t + 2) as usize
                } else if o == cut {
                    (t + 3) as usize
                } else {
                    he[o as int].twin
                });
            } else {
                assert(after.halfedges@[cut as int].twin == t + 3);
                assert(after.halfedges@[twin as int].twin == t + 2);
            }
        }
        assert forall|e: int| 0 <= e < after.halfedges@.len() implies #[trigger] links_ok(
            after.halfedges@,
            e,
            after.vertices@.len() as int,
            after.faces@.len() as int,
        ) by {
            if e < t {
                assert(links_ok(he, e, before.vertices@.len() as int, before.faces@.len() as int));
            } else {
                assert(after.halfedges@[e].face == NIL && after.halfedges@[e].prev == NIL);
            }
        }
        assert forall|e: int| 0 <= e < after.halfedges@.len() && e != t + 1 implies (
        #[trigger] after.halfedges@[e]).origin < after.vertices@.len() by {
            if e < t && e != needs_prev {
                assert(he[e].origin < before.vertices@.len());
            }
        }
    }

    /// Ends a line at `end_pt`.
    fn end_line(&mut self, needs_next: usize, needs_prev: usize, end_pt: Point)
        requires
            old(self).wf(),
            old(self).origins_set_but(needs_prev),
            needs_next < old(self).halfedges@.len(),
            needs_prev < old(self).halfedges@.len(),
            old(self).vertices@.len() + 1 < NIL,
        ensures
            final(self).wf(),
            final(self).origins_set(),
            final(self).halfedges@ == line_ended(
                old(self).halfedges@,
                old(self).vertices@.len(),
                needs_next,
                needs_prev,
            ),
            final(self).vertices@ == old(self).vertices@.push(
                Vertex { coordinates: end_pt, incident_edge: needs_prev, alive: true },
            ),
            final(self).faces@ == old(self).faces@,
            old(self).line_open(needs_prev) && old(self).halfedges@[needs_prev as int].twin == needs_next
                ==> final(self).next_bijective(),
    {
        let mut he = self.halfedges[needs_next];
        he.next = needs_prev;
        self.halfedges.set(needs_next, he);
        let end_vertex_ind = self.vertices.len();
        let end_vertex = Vertex { coordinates: end_pt, incident_edge: needs_prev, alive: true };
        self.vertices.push(end_vertex);
        let mut he = self.halfedges[needs_prev];
        he.origin = end_vertex_ind;
        self.halfedges.set(needs_prev, he);
        proof {
            assert(self.halfedges@ =~= line_ended(
                old(self).halfedges@,
                old(self).vertices@.len(),
                needs_next,
                needs_prev,
            ));
            assert forall|e: int| 0 <= e < self.halfedges@.len() implies #[trigger] twin_ok(
                self.halfedges@,
                e,
            ) by {
                assert(twin_ok(old(self).halfedges@, e));
            }
            assert forall|e: int| 0 <= e < self.halfedges@.len() implies #[trigger] links_ok(
                self.halfedges@,
                e,
                self.vertices@.len() as int,
                self.faces@.len() as int,
            ) by {
                assert(links_ok(
                    old(self).halfedges@,
                    e,
                    old(self).vertices@.len() as int,
                    old(self).faces@.len() as int,
                ));
            }
            assert forall|e: int| 0 <= e < self.halfedges@.len() implies (#[trigger] self.halfedges@[e]).origin
                < self.vertices@.len() by {
                if e != needs_prev {
                    assert(old(self).halfedges@[e].origin < old(self).vertices@.len());
                }
            }
            if old(self).line_open(needs_prev) && old(self).halfedges@[needs_prev as int].twin == needs_next {
                let he = old(self).halfedges@;
                let tracer = one_tracer(he.len(), needs_prev as int);
                let back = choose|back: Seq<int>| #[trigger] linked(he, back, tracer);
                let closed = back.update(needs_prev as int, needs_next as int);
                assert(twin_ok(he, needs_prev as int));
                assert(link_ok(he, back, tracer, needs_next as int));
                assert(link_ok(he, back, tracer, needs_prev as int));
                assert forall|x: int| 0 <= x < self.halfedges@.len() implies #[trigger] link_ok(
                    self.halfedges@,
                    closed,
                    no_tracer(he.len()),
                    x,
                ) by {
                    assert(link_ok(he, back, tracer, x));
                    assert(twin_ok(he, x));
                    let y = he[x].next;
                    if y != NIL {
                        assert(link_ok(he, back, tracer, y as int));
                    }
                    if back[x] != -1 {
                        assert(link_ok(he, back, tracer, back[x]));
                    }
                }
                assert(linked(self.halfedges@, closed, no_tracer(he.len())));
                let nv = old(self).vertices@.len() as int;
                assert(origin_ok(he, tracer, needs_next as int));
                assert(origin_ok(he, tracer, needs_prev as int));
                assert(links_ok(he, needs_next as int, nv, old(self).faces@.len() as int));
                assert forall|x: int| 0 <= x < self.halfedges@.len() implies #[trigger] origin_ok(
                    self.halfedges@,
                    no_tracer(he.len()),
                    x,
                ) by {
                    assert(origin_ok(he, tracer, x));
                    assert(link_ok(he, back, tracer, x));
                    assert(twin_ok(he, x));
                    assert(links_ok(he, x, nv, old(self).faces@.len() as int));
                    let y = he[x].next;
                    if y != NIL {
                        assert(origin_ok(he, tracer, y as int));
                    }
                    let w = he[x].twin;
                    assert(origin_ok(he, tracer, w as int));
                    assert(links_ok(he, w as int, nv, old(self).faces@.len() as int));
                }
                assert forall|v: int| 0 <= v < self.vertices@.len() implies #[trigger] vertex_ok(
                    self.halfedges@,
                    self.vertices@,
                    v,
                ) by {
                    if v < nv {
                        assert(vertex_ok(he, old(self).vertices@, v));
                        let s = old(self).vertices@[v].incident_edge as int;
                        assert(twin_ok(he, s));
                        let w = he[s].twin as int;
                        assert(link_ok(he, back, tracer, s));
                        assert(link_ok(he, back, tracer, w));
                        assert(origin_ok(he, tracer, w));
                        assert(links_ok(he, w, nv, old(self).faces@.len() as int));
                    }
                }
            }
        }
    }

    /// Lays a line from `start_pt` to `end_pt` across the half-edges of
    /// `cuts`, in their order: the line gets a vertex at its start, at each
    /// crossing and at its end, and two half-edges between each two of them
    /// that follow each other; each half-edge that it crosses is parted at
    /// the crossing.
    pub fn insert_line(&mut self, start_pt: Point, end_pt: Point, cuts: &Vec<Crossing>)
        requires
            old(self).wf(),
            old(self).origins_set(),
            forall|i: int| 0 <= i < cuts@.len() ==> (#[trigger] cuts@[i]).1 < old(self).halfedges@.len(),
            old(self).halfedges@.len() + 4 * cuts@.len() + 2 < NIL,
            old(self).vertices@.len() + cuts@.len() + 2 < NIL,
        ensures
            final(self).wf(),
            final(self).origins_set(),
            final(self).halfedges@ == line_laid(old(self).halfedges@, old(self).vertices@.len(), cuts@),
            final(self).halfedges@.len() == old(self).halfedges@.len() + 4 * cuts@.len() + 2,
            final(self).vertices@ == line_vertices(
                old(self).vertices@,
                old(self).halfedges@.len(),
                start_pt,
                end_pt,
                cuts@,
            ),
            final(self).faces@ == old(self).faces@,
            old(self).next_bijective() ==> final(self).next_bijective(),
            old(self).next_bijective() && old(self).fans() ==> final(self).fans(),
            old(self).vertices_live() ==> final(self).vertices_live(),
    {
        let ghost he0 = self.halfedges@;
        let ghost v0 = self.vertices@;
        let ghost whole = old(self).next_bijective() && old(self).fans();
        proof {
            if whole {
                assert forall|x: int| 0 <= x < he0.len() implies index_or_nil(
                    (#[trigger] he0[x]).origin,
                    v0.len() as int,
                ) by {
                    assert(links_ok(he0, x, v0.len() as int, self.faces@.len() as int));
                }
                lemma_begin_keeps_fans(he0, v0, start_pt);
            }
        }
        let (mut line_needs_next, mut line_needs_prev) = self.begin_line(start_pt);
        let mut i: usize = 0;
        proof {
            assert(cuts@.subrange(0, 0) =~= Seq::<Crossing>::empty());
            assert(self.vertices@ =~= line_vertices(v0, he0.len(), start_pt, end_pt, cuts@).subrange(
                0,
                v0.len() as int + 1,
            ));
        }
        while i < cuts.len()
            invariant
                i <= cuts@.len(),
                he0 == old(self).halfedges@,
                v0 == old(self).vertices@,
                self.wf(),
                self.origins_set_but(line_needs_prev),
                self.faces@ == old(self).faces@,
                self.halfedges@ == line_carried(he0, v0.len(), cuts@.subrange(0, i as int)),
                self.halfedges@.len() == he0.len() + 4 * i + 2,
                self.vertices@.len() == v0.len() + i + 1,
                self.vertices@ == line_vertices(v0, he0.len(), start_pt, end_pt, cuts@).subrange(
                    0,
                    v0.len() as int + i + 1,
                ),
                line_needs_next == open_next(self.halfedges@.len() as int, i as int),
                line_needs_prev == open_prev(self.halfedges@.len() as int, i as int),
                self.halfedges@[line_needs_prev as int].twin == line_needs_next,
                old(self).next_bijective() ==> self.line_open(line_needs_prev),
                whole == (old(self).next_bijective() && old(self).fans()),
                whole ==> fanned(self.halfedges@, self.vertices@, 0),
                forall|k: int| 0 <= k < cuts@.len() ==> (#[trigger] cuts@[k]).1 < he0.len(),
                he0.len() + 4 * cuts@.len() + 2 < NIL,
                v0.len() + cuts@.len() + 2 < NIL,
            decreases cuts@.len() - i,
        {
            let (int_pt, cut_edge) = cuts[i];
            let ghost so_far = self.halfedges@;
            let ghost verts = self.vertices@;
            proof {
                if whole {
                    assert forall|x: int| 0 <= x < so_far.len() implies index_or_nil(
                        (#[trigger] so_far[x]).origin,
                        verts.len() as int,
                    ) by {
                        assert(links_ok(so_far, x, verts.len() as int, self.faces@.len() as int));
                    }
                    assert(origin_ok(
                        so_far,
                        one_tracer(so_far.len(), line_needs_prev as int),
                        line_needs_prev as int,
                    ));
                    lemma_cut_keeps_fans(so_far, verts, line_needs_next, line_needs_prev, cut_edge, int_pt);
                }
            }
            let (new_next, new_prev) = self.cut_line(line_needs_next, line_needs_prev, int_pt, cut_edge);
            proof {
                let done = cuts@.subrange(0, i + 1);
                assert(done.drop_last() =~= cuts@.subrange(0, i as int));
                assert(done.last() == cuts@[i as int]);
                assert(self.vertices@ =~= line_vertices(v0, he0.len(), start_pt, end_pt, cuts@).subrange(
                    0,
                    v0.len() as int + i + 2,
                ));
            }
            line_needs_next = new_next;
            line_needs_prev = new_prev;
            i += 1;
        }
        proof {
            assert(cuts@.subrange(0, cuts@.len() as int) =~= cuts@);
        }
        let ghost verts = self.vertices@;
        proof {
            if whole {
                let carried = self.halfedges@;
                assert forall|x: int| 0 <= x < carried.len() implies index_or_nil(
                    (#[trigger] carried[x]).origin,
                    verts.len() as int,
                ) by {
                    assert(links_ok(carried, x, verts.len() as int, self.faces@.len() as int));
                }
                assert(origin_ok(
                    carried,
                    one_tracer(carried.len(), line_needs_prev as int),
                    line_needs_prev as int,
                ));
                lemma_end_keeps_fans(carried, verts, line_needs_next, line_needs_prev, end_pt);
            }
        }
        self.end_line(line_needs_next, line_needs_prev, end_pt);
        proof {
            assert(self.vertices@ =~= line_vertices(v0, he0.len(), start_pt, end_pt, cuts@));
            if old(self).vertices_live() {
                assert forall|v: int| 0 <= v < self.vertices@.len() implies (#[trigger] self.vertices@[v]).alive by {
                    if v < v0.len() {
                        assert(self.vertices@[v] == v0[v]);
                    }
                }
            }
        }
    }
}

/// Is the half-edge `e` the one that stands for its pair when a line is
/// cut into the edge list: is it live, and is its twin not a live half-edge
/// with a lower index?
pub open spec fn is_candidate(d: DCEL, e: int) -> bool {
    &&& d.halfedges@[e].alive
    &&& !(d.halfedges@[e].twin < e && d.halfedges@[d.halfedges@[e].twin as int].alive)
}

/// The two ends of the half-edge `e`: its origin and the origin of its twin.
pub open spec fn edge_ends(d: DCEL, e: int) -> Seq<Point> {
    seq![
        d.vertices@[d.halfedges@[e].origin as int].coordinates,
        d.vertices@[d.halfedges@[d.halfedges@[e].twin as int].origin as int].coordinates,
    ]
}

/// Is `list` what a scan of the first `k` half-edges finds: for each
/// half-edge that stands for its pair, in the order of the half-edges, the
/// point that the kernel gave as its crossing with `seg`, if it gave one?
pub open spec fn crossings_found<K: Kernel>(
    kernel: &K,
    seg: Segment,
    d: DCEL,
    k: nat,
    list: Seq<Crossing>,
) -> bool
    decreases k,
{
    if k == 0 {
        list.len() == 0
    } else if !is_candidate(d, k - 1) {
        crossings_found(kernel, seg, d, (k - 1) as nat, list)
    } else {
        exists|other: Segment, found: Option<Point>|
            {
                &&& other@ == edge_ends(d, k - 1)
                &&& #[trigger] call_ensures(K::segment_intersection, (kernel, seg, other), found)
                &&& match found {
                    None => crossings_found(kernel, seg, d, (k - 1) as nat, list),
                    Some(pt) => {
                        &&& list.len() > 0
                        &&& list.last() == (pt, (k - 1) as usize)
                        &&& crossings_found(kernel, seg, d, (k - 1) as nat, list.drop_last())
                    },
                }
            }
    }
}

/// Finds the half-edges that a segment crosses, one of each pair of twins,
/// with the points at which it crosses them.
pub fn get_line_intersections<K: Kernel>(kernel: &K, seg: Segment, dcel: &DCEL) -> (result: Vec<Crossing>)
    requires
        dcel.wf(),
        dcel.origins_set(),
    ensures
        crossings_found(kernel, seg, *dcel, dcel.halfedges@.len(), result@),
        result@.len() <= dcel.halfedges@.len(),
        forall|i: int| 0 <= i < result@.len() ==> (#[trigger] result@[i]).1 < dcel.halfedges@.len(),
{
    let mut intersections: Vec<Crossing> = Vec::new();
    let n = dcel.halfedges.len();
    let mut index: usize = 0;
    while index < n
        invariant
            index <= n,
            n == dcel.halfedges@.len(),
            dcel.wf(),
            dcel.origins_set(),
            crossings_found(kernel, seg, *dcel, index as nat, intersections@),
            intersections@.len() <= index,
            forall|i: int| 0 <= i < intersections@.len() ==> (#[trigger] intersections@[i]).1 < n,
        decreases n - index,
    {
        let halfedge = dcel.halfedges[index];
        let twin = halfedge.twin;
        proof {
            assert(twin_ok(dcel.halfedges@, index as int));
        }
        if halfedge.alive && !(twin < index && dcel.halfedges[twin].alive) {
            let this_seg: Segment = [dcel.get_origin(index), dcel.get_origin(twin)];
            let ghost before = intersections@;
            let this_intersection = kernel.segment_intersection(seg, this_seg);
            if let Some(int_pt) = this_intersection {
                intersections.push((int_pt, index));
                proof {
                    assert(intersections@.drop_last() =~= before);
                }
            }
            proof {
                assert(this_seg@ =~= edge_ends(*dcel, index as int));
                assert(call_ensures(K::segment_intersection, (kernel, seg, this_seg), this_intersection));
            }
        }
        index += 1;
    }
    intersections
}

/// Where a crossing at `pt` goes into a list that is sorted by the sweep
/// order of the points: behind every crossing that does not come after it.
pub open spec fn slot_by_point(sorted: Seq<Crossing>, pt: Point) -> int
    decreases sorted.len(),
{
    if sorted.len() == 0 {
        0
    } else if !point_lt(pt, sorted.last().0) {
        sorted.len() as int
    } else {
        slot_by_point(sorted.drop_last(), pt)
    }
}

/// The crossings sorted by the sweep order of their points, first the one
/// that is before all others; those at one point in the order in which they
/// came.
pub open spec fn sorted_by_point(list: Seq<Crossing>) -> Seq<Crossing>
    decreases list.len(),
{
    if list.len() == 0 {
        Seq::empty()
    } else {
        let rest = sorted_by_point(list.drop_last());
        rest.insert(slot_by_point(rest, list.last().0), list.last())
    }
}

/// `slot_by_point` is a place of the list or its end.
pub proof fn lemma_point_slot_in_range(sorted: Seq<Crossing>, pt: Point)
    ensures
        0 <= slot_by_point(sorted, pt) <= sorted.len(),
    decreases sorted.len(),
{
    if sorted.len() > 0 && point_lt(pt, sorted.last().0) {
        lemma_point_slot_in_range(sorted.drop_last(), pt);
    }
}

/// Sorting keeps the number of crossings, and every sorted crossing is one
/// of those that were given.
pub proof fn lemma_sorted_crossings(list: Seq<Crossing>)
    ensures
        sorted_by_point(list).len() == list.len(),
        forall|i: int|
            0 <= i < list.len() ==> exists|j: int|
                0 <= j < list.len() && list[j] == #[trigger] sorted_by_point(list)[i],
    decreases list.len(),
{
    if list.len() > 0 {
        let rest = sorted_by_point(list.drop_last());
        lemma_sorted_crossings(list.drop_last());
        lemma_point_slot_in_range(rest, list.last().0);
        let slot = slot_by_point(rest, list.last().0);
        assert forall|i: int| 0 <= i < list.len() implies exists|j: int|
            0 <= j < list.len() && list[j] == #[trigger] sorted_by_point(list)[i] by {
            if i == slot {
                assert(list[list.len() - 1] == sorted_by_point(list)[i]);
            } else {
                let r = if i < slot {
                    i
                } else {
                    i - 1
                };
                assert(sorted_by_point(list)[i] == rest[r]);
                let j = choose|j: int| 0 <= j < list.len() - 1 && list.drop_last()[j] == rest[r];
                assert(list[j] == sorted_by_point(list)[i]);
            }
        }
    }
}

/// Sorts crossings by the sweep order of their points.
pub fn sort_crossings(list: Vec<Crossing>) -> (sorted: Vec<Crossing>)
    ensures
        sorted@ == sorted_by_point(list@),
{
    let mut sorted: Vec<Crossing> = Vec::new();
    let mut i: usize = 0;
    while i < list.len()
        invariant
            i <= list@.len(),
            sorted@ == sorted_by_point(list@.subrange(0, i as int)),
        decreases list@.len() - i,
    {
        let item = list[i];
        let mut slot = sorted.len();
        proof {
            assert(sorted@.subrange(0, slot as int) =~= sorted@);
        }
        while slot > 0 && item.0.before(&sorted[slot - 1].0)
            invariant
                slot <= sorted@.len(),
                slot_by_point(sorted@, item.0) == slot_by_point(sorted@.subrange(0, slot as int), item.0),
            decreases slot,
        {
            proof {
                let part = sorted@.subrange(0, slot as int);
                assert(part.last() == sorted@[slot - 1]);
                assert(part.drop_last() =~= sorted@.subrange(0, slot - 1));
            }
            slot -= 1;
        }
        proof {
            let part = sorted@.subrange(0, slot as int);
            if slot > 0 {
                assert(part.last() == sorted@[slot - 1]);
            }
            assert(slot_by_point(part, item.0) == slot);
            assert(list@.subrange(0, i + 1).drop_last() =~= list@.subrange(0, i as int));
            assert(list@.subrange(0, i + 1).last() == item);
        }
        sorted.insert(slot, item);
        i += 1;
    }
    proof {
        assert(list@.subrange(0, list@.len() as int) =~= list@);
    }
    sorted
}

/// Is `cut` what becomes of `crossing` once it is turned to the side that
/// the kernel chose: the half-edge stays if the kernel found no left turn
/// from `start` over the crossing to the origin of the half-edge, and gives
/// way to its twin if it found one?
pub open spec fn turned<K: Kernel>(kernel: &K, start: Point, d: DCEL, crossing: Crossing, cut: Crossing) -> bool {
    exists|left: bool|
        {
            &&& #[trigger] call_ensures(
                K::makes_left_turn,
                (
                    kernel,
                    start,
                    crossing.0,
                    d.vertices@[d.halfedges@[crossing.1 as int].origin as int].coordinates,
                ),
                left,
            )
            &&& cut == (
                crossing.0,
                if left {
                    d.halfedges@[crossing.1 as int].twin
                } else {
                    crossing.1
                },
            )
        }
}

/// Is each of `cuts` what becomes of the crossing of `sorted` at its place
/// once that is turned to the side that the kernel chose?
pub open spec fn oriented<K: Kernel>(
    kernel: &K,
    start: Point,
    d: DCEL,
    sorted: Seq<Crossing>,
    cuts: Seq<Crossing>,
) -> bool {
    &&& cuts.len() == sorted.len()
    &&& forall|i: int| 0 <= i < sorted.len() ==> turned(kernel, start, d, #[trigger] sorted[i], cuts[i])
}

/// Is `after` what adding the segment `seg` makes of `before`: the line
/// from the first end of the segment in sweep order to the last is laid
/// across the half-edges that the kernel found it to cross, in the sweep
/// order of the crossings, each turned to the side that the kernel chose?
/// Each crossing adds four half-edges and a vertex, and the line itself two
/// half-edges and two vertices.
pub open spec fn line_added<K: Kernel>(kernel: &K, seg: Segment, before: DCEL, after: DCEL) -> bool {
    &&& after.faces@ == before.faces@
    &&& exists|found: Seq<Crossing>, cuts: Seq<Crossing>|
        {
            &&& crossings_found(kernel, seg, before, before.halfedges@.len(), found)
            &&& #[trigger] oriented(kernel, line_start(seg), before, sorted_by_point(found), cuts)
            &&& after.halfedges@ == line_laid(before.halfedges@, before.vertices@.len(), cuts)
            &&& after.halfedges@.len() == before.halfedges@.len() + 4 * cuts.len() + 2
            &&& after.vertices@.len() == before.vertices@.len() + cuts.len() + 2
            &&& cuts.len() == found.len()
            &&& after.vertices@ == line_vertices(
                before.vertices@,
                before.halfedges@.len(),
                line_start(seg),
                line_end(seg),
                cuts,
            )
        }
}

/// Add a line segment to a DCEL.
///
/// Vertices and halfedges are constructed and mutated as necessary.
/// Faces are not affected. This should be used before add_faces.
pub fn add_line<K: Kernel>(kernel: &K, seg: Segment, dcel: &mut DCEL)
    requires
        old(dcel).wf(),
        old(dcel).origins_set(),
        5 * old(dcel).halfedges@.len() + 2 < NIL,
        old(dcel).vertices@.len() + old(dcel).halfedges@.len() + 2 < NIL,
    ensures
        final(dcel).wf(),
        final(dcel).origins_set(),
        final(dcel).faces@ == old(dcel).faces@,
        final(dcel).halfedges@.len() <= 5 * old(dcel).halfedges@.len() + 2,
        final(dcel).vertices@.len() <= old(dcel).vertices@.len() + old(dcel).halfedges@.len() + 2,
        old(dcel).next_bijective() ==> final(dcel).next_bijective(),
        old(dcel).next_bijective() && old(dcel).fans() ==> final(dcel).fans(),
        old(dcel).vertices_live() ==> final(dcel).vertices_live(),
        line_added(kernel, seg, *old(dcel), *final(dcel)),
{
    let found = get_line_intersections(kernel, seg, dcel);
    let ghost found_view = found@;
    proof {
        lemma_sorted_crossings(found@);
    }
    let intersections = sort_crossings(found);
    let start_pt = if seg[0].before(&seg[1]) {
        seg[0]
    } else {
        seg[1]
    };
    let end_pt = if seg[0].before(&seg[1]) {
        seg[1]
    } else {
        seg[0]
    };
    let prev_pt = start_pt;

    let mut cuts: Vec<Crossing> = Vec::new();
    let mut i: usize = 0;
    while i < intersections.len()
        invariant
            i <= intersections@.len(),
            dcel.wf(),
            dcel.origins_set(),
            *dcel == *old(dcel),
            cuts@.len() == i,
            forall|k: int|
                0 <= k < intersections@.len() ==> (#[trigger] intersections@[k]).1 < dcel.halfedges@.len(),
            forall|k: int| 0 <= k < cuts@.len() ==> (#[trigger] cuts@[k]).1 < dcel.halfedges@.len(),
            oriented(kernel, prev_pt, *dcel, intersections@.subrange(0, i as int), cuts@),
        decreases intersections@.len() - i,
    {
        let (int_pt, this_cut_edge) = intersections[i];
        let mut cut_edge = this_cut_edge;
        let corner = dcel.get_origin(this_cut_edge);
        let left = kernel.makes_left_turn(prev_pt, int_pt, corner);
        proof {
            assert(twin_ok(dcel.halfedges@, this_cut_edge as int));
        }
        if left {
            cut_edge = dcel.halfedges[cut_edge].twin;
        }
        let ghost before = cuts@;
        cuts.push((int_pt, cut_edge));
        proof {
            let done = intersections@.subrange(0, i + 1);
            assert(call_ensures(K::makes_left_turn, (kernel, prev_pt, int_pt, corner), left));
            assert forall|k: int| 0 <= k < done.len() implies turned(
                kernel,
                prev_pt,
                *dcel,
                #[trigger] done[k],
                cuts@[k],
            ) by {
                if k < i {
                    assert(intersections@.subrange(0, i as int)[k] == done[k]);
                    assert(before[k] == cuts@[k]);
                }
            }
        }
        i += 1;
    }
    proof {
        assert(intersections@.subrange(0, intersections@.len() as int) =~= intersections@);
    }
    dcel.insert_line(start_pt, end_pt, &cuts);
    proof {
        assert(crossings_found(kernel, seg, *old(dcel), old(dcel).halfedges@.len(), found_view));
        assert(oriented(kernel, line_start(seg), *old(dcel), sorted_by_point(found_view), cuts@));
    }
}

/// The end of a segment that comes first in the sweep order.
pub open spec fn line_start(seg: Segment) -> Point {
    if point_lt(seg[0], seg[1]) {
        seg[0]
    } else {
        seg[1]
    }
}

/// The end of a segment that comes last in the sweep order.
pub open spec fn line_end(seg: Segment) -> Point {
    if point_lt(seg[0], seg[1]) {
        seg[1]
    } else {
        seg[0]
    }
}

/// The half-edges after a vertex `v` has been placed where the boundaries
/// traced by `pred_edge` and `succ_edge` meet: a twin pair is added for the
/// boundary that leaves the vertex; that pair's first half-edge and the
/// half-edges `parent_edge` and `other_edge` start at the vertex; the twin of
/// `pred_edge` leads into `succ_edge`, the twin of `succ_edge` into the first
/// of the pair, and the second of the pair into `pred_edge`.
pub open spec fn joined(
    he: Seq<HalfEdge>,
    v: usize,
    pred_edge: usize,
    succ_edge: usize,
    parent_edge: usize,
    other_edge: usize,
) -> Seq<HalfEdge> {
    let t = he.len() as usize;
    let s0 = he.push(bare_edge(NIL, (t + 1) as usize, NIL)).push(bare_edge(NIL, t, NIL));
    let pred_edge_twin = s0[pred_edge as int].twin;
    let succ_edge_twin = s0[succ_edge as int].twin;
    let s1 = s0.update(parent_edge as int, HalfEdge { origin: v, ..s0[parent_edge as int] });
    let s2 = s1.update(other_edge as int, HalfEdge { origin: v, ..s1[other_edge as int] });
    let s3 = s2.update(t as int, HalfEdge { origin: v, ..s2[t as int] });
    let s4 = s3.update(pred_edge_twin as int, HalfEdge { next: succ_edge, ..s3[pred_edge_twin as int] });
    let s5 = s4.update(succ_edge_twin as int, HalfEdge { next: t, ..s4[succ_edge_twin as int] });
    s5.update(t + 1, HalfEdge { next: pred_edge, ..s5[t + 1] })
}

/// What placing a vertex where two boundaries meet does to the links of
/// each half-edge, where the two boundaries are traced by different
/// half-edges.
pub proof fn lemma_joined_links(
    he: Seq<HalfEdge>,
    v: usize,
    pred_edge: usize,
    succ_edge: usize,
    parent_edge: usize,
    other_edge: usize,
)
    requires
        pred_edge < he.len(),
        succ_edge < he.len(),
        parent_edge < he.len(),
        other_edge < he.len(),
        pred_edge != succ_edge,
        he[pred_edge as int].twin < he.len(),
        he[succ_edge as int].twin < he.len(),
        he[pred_edge as int].twin != he[succ_edge as int].twin,
        he.len() + 2 < NIL,
    ensures
        joined(he, v, pred_edge, succ_edge, parent_edge, other_edge).len() == he.len() + 2,
        forall|x: int|
            0 <= x < he.len() ==> {
                let after = #[trigger] joined(he, v, pred_edge, succ_edge, parent_edge, other_edge)[x];
                &&& after.twin == he[x].twin
                &&& after.alive == he[x].alive
                &&& after.origin == if x == parent_edge || x == other_edge {
                    v
                } else {
                    he[x].origin
                }
                &&& after.next == if x == he[pred_edge as int].twin {
                    succ_edge
                } else if x == he[succ_edge as int].twin {
                    he.len() as usize
                } else {
                    he[x].next
                }
            },
        ({
            let after = joined(he, v, pred_edge, succ_edge, parent_edge, other_edge);
            let t = he.len() as int;
            &&& after[t].twin == t + 1
            &&& after[t].next == NIL
            &&& after[t].alive
            &&& after[t].origin == v
            &&& after[t + 1].twin == t
            &&& after[t + 1].next == pred_edge
            &&& after[t + 1].alive
            &&& after[t + 1].origin == NIL
        }),
{
    let t = he.len() as usize;
    let s0 = he.push(bare_edge(NIL, (t + 1) as usize, NIL)).push(bare_edge(NIL, t, NIL));
    let pred_edge_twin = s0[pred_edge as int].twin;
    let succ_edge_twin = s0[succ_edge as int].twin;
    let s1 = s0.update(parent_edge as int, HalfEdge { origin: v, ..s0[parent_edge as int] });
    let s2 = s1.update(other_edge as int, HalfEdge { origin: v, ..s1[other_edge as int] });
    let s3 = s2.update(t as int, HalfEdge { origin: v, ..s2[t as int] });
    let s4 = s3.update(pred_edge_twin as int, HalfEdge { next: succ_edge, ..s3[pred_edge_twin as int] });
    let s5 = s4.update(succ_edge_twin as int, HalfEdge { next: t, ..s4[succ_edge_twin as int] });
    let s6 = s5.update(t + 1, HalfEdge { next: pred_edge, ..s5[t + 1] });
    assert(s6 == joined(he, v, pred_edge, succ_edge, parent_edge, other_edge));
    assert forall|x: int| 0 <= x < he.len() implies {
        let after = #[trigger] s6[x];
        &&& after.twin == he[x].twin
        &&& after.alive == he[x].alive
        &&& after.origin == if x == parent_edge || x == other_edge {
            v
        } else {
            he[x].origin
        }
        &&& after.next == if x == pred_edge_twin {
            succ_edge
        } else if x == succ_edge_twin {
            t
        } else {
            he[x].next
        }
    } by {
        assert(s3[x].next == he[x].next && s3[x].twin == he[x].twin && s3[x].alive == he[x].alive);
        assert(s3[x].origin == if x == parent_edge || x == other_edge { v } else { he[x].origin });
        assert(s4[x].next == if x == pred_edge_twin { succ_edge } else { he[x].next });
        assert(s5[x].next == if x == succ_edge_twin { t } else { s4[x].next });
        assert(s6[x].next == s5[x].next);
    }
    assert(s6[t as int] == s3[t as int]);
    assert(s6[t + 1].origin == s0[t + 1].origin);
}

impl DCEL {
    /// Places a vertex at `center`, where the boundaries traced by
    /// `pred_edge` and `succ_edge` meet, and adds a twin pair for the
    /// boundary that leaves it. Returns the pair.
    pub fn join_at(
        &mut self,
        center: Point,
        pred_edge: usize,
        succ_edge: usize,
        parent_edge: usize,
        other_edge: usize,
    ) -> (pair: (usize, usize))
        requires
            old(self).wf(),
            pred_edge < old(self).halfedges@.len(),
            succ_edge < old(self).halfedges@.len(),
            parent_edge < old(self).halfedges@.len(),
            other_edge < old(self).halfedges@.len(),
            old(self).halfedges@.len() + 2 < NIL,
            old(self).vertices@.len() + 1 < NIL,
        ensures
            final(self).wf(),
            pair.0 == old(self).halfedges@.len(),
            pair.1 == pair.0 + 1,
            final(self).halfedges@ == joined(
                old(self).halfedges@,
                old(self).vertices@.len() as usize,
                pred_edge,
                succ_edge,
                parent_edge,
                other_edge,
            ),
            final(self).halfedges@.len() == old(self).halfedges@.len() + 2,
            final(self).vertices@ == old(self).vertices@.push(
                Vertex { coordinates: center, incident_edge: pair.0, alive: true },
            ),
            final(self).faces@ == old(self).faces@,
            forall|e: int|
                0 <= e < old(self).halfedges@.len() ==> (#[trigger] final(self).halfedges@[e]).origin == if e
                    == parent_edge || e == other_edge {
                    old(self).vertices@.len() as usize
                } else {
                    old(self).halfedges@[e].origin
                },
            final(self).halfedges@[pair.0 as int].origin == old(self).vertices@.len(),
            forall|e: int|
                0 <= e < old(self).halfedges@.len() ==> (#[trigger] final(self).halfedges@[e]).twin == old(self).halfedges@[e].twin,
            final(self).halfedges@[pair.1 as int].twin == pair.0,
    {
        let (twin1, twin2) = self.add_twins();
        let ghost added = self.halfedges@;

        // make a vertex at the circle center
        let center_vertex = Vertex { coordinates: center, incident_edge: twin1, alive: true };
        let center_vertex_ind = self.vertices.len();
        self.vertices.push(center_vertex);

        // hook up next pointers on halfedges
        proof {
            assert(twin_ok(self.halfedges@, pred_edge as int));
            assert(twin_ok(self.halfedges@, succ_edge as int));
        }
        let pred_edge_twin = self.halfedges[pred_edge].twin;
        let succ_edge_twin = self.halfedges[succ_edge].twin;

        let mut he = self.halfedges[parent_edge];
        he.origin = center_vertex_ind;
        self.halfedges.set(parent_edge, he);
        let mut he = self.halfedges[other_edge];
        he.origin = center_vertex_ind;
        self.halfedges.set(other_edge, he);
        let mut he = self.halfedges[twin1];
        he.origin = center_vertex_ind;
        self.halfedges.set(twin1, he);

        let mut he = self.halfedges[pred_edge_twin];
        he.next = succ_edge;
        self.halfedges.set(pred_edge_twin, he);
        let mut he = self.halfedges[succ_edge_twin];
        he.next = twin1;
        self.halfedges.set(succ_edge_twin, he);
        let mut he = self.halfedges[twin2];
        he.next = pred_edge;
        self.halfedges.set(twin2, he);
        proof {
            assert(self.halfedges@ =~= joined(
                old(self).halfedges@,
                old(self).vertices@.len() as usize,
                pred_edge,
                succ_edge,
                parent_edge,
                other_edge,
            ));
            assert forall|e: int| 0 <= e < self.halfedges@.len() implies {
                &&& (#[trigger] self.halfedges@[e]).twin == added[e].twin
                &&& self.halfedges@[e].prev == added[e].prev
                &&& self.halfedges@[e].face == added[e].face
                &&& (self.halfedges@[e].origin == added[e].origin || self.halfedges@[e].origin
                    == center_vertex_ind)
                &&& (self.halfedges@[e].next == added[e].next || self.halfedges@[e].next < self.halfedges@.len())
            } by {}
            assert forall|e: int| 0 <= e < self.halfedges@.len() implies #[trigger] twin_ok(
                self.halfedges@,
                e,
            ) by {
                assert(twin_ok(added, e));
                assert(self.halfedges@[added[e].twin as int].twin == added[added[e].twin as int].twin);
            }
            assert forall|e: int| 0 <= e < self.halfedges@.len() implies #[trigger] links_ok(
                self.halfedges@,
                e,
                self.vertices@.len() as int,
                self.faces@.len() as int,
            ) by {
                assert(links_ok(added, e, old(self).vertices@.len() as int, self.faces@.len() as int));
            }
        }
        (twin1, twin2)
    }
}

impl DCEL {
    /// The walk along `next` from the half-edge that a live face names
    /// comes back to that half-edge.
    pub open spec fn boundaries_close(&self) -> bool {
        forall|f: int|
            0 <= f < self.faces@.len() && (#[trigger] self.faces@[f]).alive ==> cycle_closes(
                self.halfedges@,
                self.faces@[f].outer_component,
            )
    }

    /// Tests whether the edge list is well formed.
    pub fn check_wf(&self) -> (r: bool)
        ensures
            r == self.wf(),
    {
        let n = self.halfedges.len();
        let nv = self.vertices.len();
        let nf = self.faces.len();
        if n == NIL || nv == NIL || nf == NIL {
            return false;
        }
        let mut e: usize = 0;
        while e < n
            invariant
                e <= n,
                n == self.halfedges@.len(),
                nv == self.vertices@.len(),
                nf == self.faces@.len(),
                forall|x: int| 0 <= x < e ==> #[trigger] twin_ok(self.halfedges@, x),
                forall|x: int| 0 <= x < e ==> #[trigger] links_ok(self.halfedges@, x, nv as int, nf as int),
            decreases n - e,
        {
            let he = self.halfedges[e];
            if he.twin >= n || he.twin == e {
                assert(!twin_ok(self.halfedges@, e as int));
                return false;
            }
            if self.halfedges[he.twin].twin != e {
                assert(!twin_ok(self.halfedges@, e as int));
                return false;
            }
            if !(he.origin == NIL || he.origin < nv) || !(he.next == NIL || he.next < n) || !(he.prev == NIL
                || he.prev < n) || !(he.face == NIL || he.face < nf) {
                assert(!links_ok(self.halfedges@, e as int, nv as int, nf as int));
                return false;
            }
            e += 1;
        }
        let mut v: usize = 0;
        while v < nv
            invariant
                v <= nv,
                n == self.halfedges@.len(),
                nv == self.vertices@.len(),
                forall|x: int| 0 <= x < v ==> (#[trigger] self.vertices@[x]).incident_edge < n,
            decreases nv - v,
        {
            if self.vertices[v].incident_edge >= n {
                return false;
            }
            v += 1;
        }
        let mut f: usize = 0;
        while f < nf
            invariant
                f <= nf,
                n == self.halfedges@.len(),
                nf == self.faces@.len(),
                forall|x: int| 0 <= x < f ==> (#[trigger] self.faces@[x]).outer_component < n,
            decreases nf - f,
        {
            if self.faces[f].outer_component >= n {
                return false;
            }
            f += 1;
        }
        true
    }

    /// Tests whether the boundary of every live face closes.
    pub fn check_boundaries(&self) -> (r: bool)
        requires
            self.wf(),
        ensures
            r == self.boundaries_close(),
    {
        let nf = self.faces.len();
        let mut f: usize = 0;
        while f < nf
            invariant
                f <= nf,
                nf == self.faces@.len(),
                self.wf(),
                forall|x: int|
                    0 <= x < f && (#[trigger] self.faces@[x]).alive ==> cycle_closes(
                        self.halfedges@,
                        self.faces@[x].outer_component,
                    ),
            decreases nf - f,
        {
            let face = self.faces[f];
            if face.alive {
                match self.cycle_length(face.outer_component) {
                    Some(k) => {
                        proof {
                            assert(cycle_of(self.halfedges@, face.outer_component, k as nat));
                        }
                    },
                    None => {
                        return false;
                    },
                }
            }
            f += 1;
        }
        true
    }

    /// Tests whether the walk along `next` from every live half-edge comes
    /// back to that half-edge.
    pub fn check_walks(&self) -> (r: bool)
        requires
            self.wf(),
        ensures
            r == self.walks_close(),
    {
        let n = self.halfedges.len();
        let mut e: usize = 0;
        while e < n
            invariant
                e <= n,
                n == self.halfedges@.len(),
                self.wf(),
                forall|x: int|
                    0 <= x < e && (#[trigger] self.halfedges@[x]).alive ==> cycle_closes(
                        self.halfedges@,
                        x as usize,
                    ),
            decreases n - e,
        {
            if self.halfedges[e].alive {
                match self.cycle_length(e) {
                    Some(k) => {
                        proof {
                            assert(cycle_of(self.halfedges@, e, k as nat));
                        }
                    },
                    None => {
                        return false;
                    },
                }
            }
            e += 1;
        }
        true
    }
}

/// What holds of the half-edge `x` where `ring` marks the half-edges that
/// lie on boundaries: a live half-edge is marked, and a marked half-edge
/// leads to a marked `next` and comes from a marked `prev`, of which it is
/// the `prev` and the `next`.
pub open spec fn ring_ok(he: Seq<HalfEdge>, ring: Seq<bool>, x: int) -> bool {
    &&& he[x].alive ==> ring[x]
    &&& ring[x] ==> {
        &&& he[x].next < he.len()
        &&& he[x].prev < he.len()
        &&& ring[he[x].next as int]
        &&& ring[he[x].prev as int]
        &&& he[he[x].next as int].prev == x
        &&& he[he[x].prev as int].next == x
    }
}

/// `ring` marks a set of half-edges that holds the live ones and on which
/// `next` and `prev` are one-to-one and undo each other.
pub open spec fn ringed(he: Seq<HalfEdge>, ring: Seq<bool>) -> bool {
    &&& ring.len() == he.len()
    &&& forall|x: int| 0 <= x < he.len() ==> #[trigger] ring_ok(he, ring, x)
}

impl DCEL {
    /// The live half-edges lie on boundaries that close: there is a set of
    /// half-edges that holds them and on which `next` and `prev` are
    /// one-to-one and undo each other.
    pub open spec fn on_rings(&self) -> bool {
        exists|ring: Seq<bool>| #[trigger] ringed(self.halfedges@, ring)
    }

    /// On boundaries that close, the walk along `next` from every live
    /// half-edge comes back to it.
    pub proof fn lemma_rings_close(d: DCEL)
        requires
            d.on_rings(),
        ensures
            d.walks_close(),
    {
        let he = d.halfedges@;
        let ring = choose|ring: Seq<bool>| #[trigger] ringed(he, ring);
        assert forall|e: int| 0 <= e < he.len() && (#[trigger] he[e]).alive implies cycle_closes(he, e as usize) by {
            assert(ring_ok(he, ring, e));
            lemma_ring_closes(he, ring, e as usize);
        }
    }

    /// Where `next` and `prev` undo each other and every half-edge is live,
    /// the half-edges lie on boundaries that close.
    pub proof fn lemma_all_live_on_rings(d: DCEL)
        requires
            d.links_closed(),
            forall|x: int| 0 <= x < d.halfedges@.len() ==> (#[trigger] d.halfedges@[x]).alive,
        ensures
            d.on_rings(),
    {
        let he = d.halfedges@;
        let ring = Seq::new(he.len(), |x: int| true);
        assert forall|x: int| 0 <= x < he.len() implies #[trigger] ring_ok(he, ring, x) by {
            assert(closed_at(he, x));
        }
        assert(ringed(he, ring));
    }

    /// Cutting a live half-edge and its twin out of boundaries that close
    /// leaves boundaries that close.
    pub proof fn lemma_without_edge_rings(before: DCEL, after: DCEL, edge: usize)
        requires
            before.wf(),
            before.links_closed(),
            before.on_rings(),
            edge < before.halfedges@.len(),
            before.halfedges@[edge as int].alive,
            after.halfedges@ == Self::without_edge(before.halfedges@, edge),
        ensures
            after.on_rings(),
    {
        let he = before.halfedges@;
        let ring = choose|ring: Seq<bool>| #[trigger] ringed(he, ring);
        let e = edge as int;
        assert(twin_ok(he, e));
        let t = he[e].twin as int;
        assert(twin_ok(he, t));
        assert(closed_at(he, e));
        assert(closed_at(he, t));
        Self::lemma_without_edge_fields(he, edge);
        let ep = he[e].prev as int;
        let en = he[e].next as int;
        let tp = he[t].prev as int;
        let tn = he[t].next as int;
        assert(ring_ok(he, ring, e));
        assert(ring_ok(he, ring, t));
        assert(ring_ok(he, ring, ep));
        assert(ring_ok(he, ring, en));
        assert(ring_ok(he, ring, tp));
        assert(ring_ok(he, ring, tn));
        let ah = after.halfedges@;
        let kept = Seq::new(
            he.len(),
            |x: int|
                if x == e {
                    en == e && tp != e && tp != t
                } else if x == t {
                    tn == t && ep != e && ep != t
                } else {
                    ring[x]
                },
        );
        assert forall|x: int| 0 <= x < ah.len() implies #[trigger] ring_ok(ah, kept, x) by {
            assert(ring_ok(he, ring, x));
            if ring[x] {
                let xn = he[x].next as int;
                let xp = he[x].prev as int;
                assert(ring_ok(he, ring, xn));
                assert(ring_ok(he, ring, xp));
            }
        }
        assert(ringed(ah, kept));
    }
}

/// The walk along `next` from a marked half-edge stays among the marked.
pub proof fn lemma_ring_walk(he: Seq<HalfEdge>, ring: Seq<bool>, x: usize, k: nat)
    requires
        ringed(he, ring),
        x < he.len(),
        ring[x as int],
    ensures
        walk_next(he, x, k) < he.len(),
        ring[walk_next(he, x, k) as int],
    decreases k,
{
    if k > 0 {
        lemma_ring_walk(he, ring, x, (k - 1) as nat);
        assert(ring_ok(he, ring, walk_next(he, x, (k - 1) as nat) as int));
    }
}

/// Where the walk along `next` from a marked half-edge is at the same
/// half-edge after `i` steps and after `j`, it is back at its start after
/// the steps that lie between.
pub proof fn lemma_ring_walk_back(he: Seq<HalfEdge>, ring: Seq<bool>, x: usize, i: nat, j: nat)
    requires
        ringed(he, ring),
        x < he.len(),
        ring[x as int],
        i <= j,
        walk_next(he, x, i) == walk_next(he, x, j),
    ensures
        walk_next(he, x, (j - i) as nat) == x,
    decreases i,
{
    if i > 0 {
        let a = walk_next(he, x, (i - 1) as nat);
        let b = walk_next(he, x, (j - 1) as nat);
        lemma_ring_walk(he, ring, x, (i - 1) as nat);
        lemma_ring_walk(he, ring, x, (j - 1) as nat);
        assert(ring_ok(he, ring, a as int));
        assert(ring_ok(he, ring, b as int));
        assert(a == b);
        lemma_ring_walk_back(he, ring, x, (i - 1) as nat, (j - 1) as nat);
    }
}

/// Among the places at which a walk of `n` steps stands, where there are
/// `n` half-edges, two are the same.
pub proof fn lemma_walk_repeats(he: Seq<HalfEdge>, ring: Seq<bool>, x: usize)
    requires
        ringed(he, ring),
        x < he.len(),
        ring[x as int],
    ensures
        exists|i: nat, j: nat| i < j <= he.len() && #[trigger] walk_next(he, x, i) == #[trigger] walk_next(he, x, j),
{
    let n = he.len() as int;
    let at = |i: int| walk_next(he, x, i as nat) as int;
    let steps = vstd::set_lib::set_int_range(0, n + 1);
    let places = steps.map(at);
    vstd::set_lib::lemma_int_range(0, n + 1);
    vstd::set_lib::lemma_int_range(0, n);
    assert forall|v: int| places.contains(v) implies vstd::set_lib::set_int_range(0, n).contains(v) by {
        let i = choose|i: int| steps.contains(i) && v == at(i);
        lemma_ring_walk(he, ring, x, i as nat);
    }
    assert(places.subset_of(vstd::set_lib::set_int_range(0, n)));
    vstd::set_lib::lemma_len_subset(places, vstd::set_lib::set_int_range(0, n));
    if vstd::relations::injective_on(at, steps) {
        vstd::set_lib::lemma_map_size(steps, places, at);
        assert(false);
    }
    let (a, b) = choose|a: int, b: int| steps.contains(a) && steps.contains(b) && #[trigger] at(a) == #[trigger] at(b) && a != b;
    if a < b {
        assert(walk_next(he, x, a as nat) == walk_next(he, x, b as nat));
    } else {
        assert(walk_next(he, x, b as nat) == walk_next(he, x, a as nat));
    }
}

/// A walk along `next` that is back at its start after `k` steps is first
/// back there after some number of steps up to `k`.
pub proof fn lemma_first_return(he: Seq<HalfEdge>, x: usize, k: nat)
    requires
        k >= 1,
        walk_next(he, x, k) == x,
    ensures
        exists|first: nat| first <= k && #[trigger] cycle_of(he, x, first),
    decreases k,
{
    if exists|j: nat| 0 < j < k && walk_next(he, x, j) == x {
        let j = choose|j: nat| 0 < j < k && walk_next(he, x, j) == x;
        lemma_first_return(he, x, j);
        let first = choose|first: nat| first <= j && #[trigger] cycle_of(he, x, first);
        assert(first <= k && cycle_of(he, x, first));
    } else {
        assert(cycle_of(he, x, k));
    }
}

/// The walk along `next` from a marked half-edge comes back to it.
pub proof fn lemma_ring_closes(he: Seq<HalfEdge>, ring: Seq<bool>, x: usize)
    requires
        ringed(he, ring),
        x < he.len(),
        ring[x as int],
    ensures
        cycle_closes(he, x),
{
    lemma_walk_repeats(he, ring, x);
    let (i, j) = choose|i: nat, j: nat|
        i < j <= he.len() && #[trigger] walk_next(he, x, i) == #[trigger] walk_next(he, x, j);
    lemma_ring_walk_back(he, ring, x, i, j);
    lemma_first_return(he, x, (j - i) as nat);
    let first = choose|first: nat| first <= (j - i) as nat && #[trigger] cycle_of(he, x, first);
    assert(first <= he.len() && cycle_of(he, x, first));
}

/// What holds of the half-edge `x` while the vertices outside the
/// rectangle are taken away, when those below `from` have been looked at:
/// it has an origin; if it is live, so are its twin, its `next` and its
/// `prev`, it is the `prev` of its `next` and the `next` of its `prev`, its
/// `next` starts where its twin starts, and it does not start where its twin
/// starts; if it is dead, a vertex below `from` is one of its ends.
pub open spec fn prune_edge_ok(he: Seq<HalfEdge>, vertices: int, from: int, x: int) -> bool {
    &&& he[x].origin < vertices
    &&& he[x].alive ==> {
        &&& he[he[x].twin as int].alive
        &&& he[x].next < he.len()
        &&& he[x].prev < he.len()
        &&& he[he[x].next as int].alive
        &&& he[he[x].prev as int].alive
        &&& he[he[x].next as int].prev == x
        &&& he[he[x].prev as int].next == x
        &&& he[he[x].next as int].origin == he[he[x].twin as int].origin
        &&& he[x].origin != he[he[x].twin as int].origin
    }
    &&& !he[x].alive ==> he[x].origin < from || he[he[x].twin as int].origin < from
}

/// What holds of the vertex `v` while the vertices outside the rectangle
/// are taken away: its incident half-edge starts at it, and if the vertex
/// has not been looked at yet, that half-edge is the only one that starts
/// at it, or ends at a vertex that was made later.
pub open spec fn prune_vertex_ok(he: Seq<HalfEdge>, vertices: Seq<Vertex>, from: int, v: int) -> bool {
    let s = vertices[v].incident_edge;
    let t = he[s as int].twin;
    &&& he[s as int].origin == v
    &&& v >= from ==> he[t as int].next == s || he[t as int].origin > v
}

/// The edge list is as the taking away of vertices leaves it when the
/// vertices below `from` have been looked at.
pub open spec fn pruning(he: Seq<HalfEdge>, vertices: Seq<Vertex>, from: int) -> bool {
    &&& forall|x: int| 0 <= x < he.len() ==> #[trigger] prune_edge_ok(he, vertices.len() as int, from, x)
    &&& forall|v: int| 0 <= v < vertices.len() ==> #[trigger] prune_vertex_ok(he, vertices, from, v)
}

/// While vertices are taken away, every live half-edge ends where its
/// `next` starts and has a live `next` and a live `prev`, and the incident
/// half-edge of every vertex starts at the vertex.
pub proof fn lemma_pruning_ends(d: DCEL, from: int)
    requires
        d.wf(),
        pruning(d.halfedges@, d.vertices@, from),
    ensures
        d.chained(),
        d.anchored(),
        d.live_links(),
{
    let he = d.halfedges@;
    assert forall|e: int| 0 <= e < he.len() implies #[trigger] chained_at(he, e) by {
        assert(prune_edge_ok(he, d.vertices@.len() as int, from, e));
    }
    assert forall|v: int| 0 <= v < d.vertices@.len() implies (#[trigger] d.vertices@[v]).incident_edge < he.len()
        && he[d.vertices@[v].incident_edge as int].origin == v by {
        assert(prune_vertex_ok(he, d.vertices@, from, v));
    }
    assert forall|e: int| 0 <= e < he.len() && (#[trigger] he[e]).alive implies {
        &&& he[e].next < he.len()
        &&& he[e].prev < he.len()
        &&& he[he[e].next as int].alive
        &&& he[he[e].prev as int].alive
    } by {
        assert(prune_edge_ok(he, d.vertices@.len() as int, from, e));
    }
}

/// Where every half-edge has a `next` and an origin and the origins fit
/// the links, entering every half-edge as the `prev` of its `next` readies
/// the edge list for the taking away of vertices.
pub proof fn lemma_pruning_starts(before: DCEL, after: DCEL)
    requires
        before.wf(),
        before.next_bijective(),
        DCEL::prev_is_set(before.halfedges@, after.halfedges@),
        after.vertices@ == before.vertices@,
    ensures
        pruning(after.halfedges@, after.vertices@, 0),
{
    let he = before.halfedges@;
    let ah = after.halfedges@;
    let none = no_tracer(he.len());
    let back = choose|back: Seq<int>| #[trigger] linked(he, back, none);
    DCEL::lemma_prev_closes(before, after);
    assert forall|x: int| 0 <= x < ah.len() implies #[trigger] prune_edge_ok(
        ah,
        after.vertices@.len() as int,
        0,
        x,
    ) by {
        assert(link_ok(he, back, none, x));
        assert(origin_ok(he, none, x));
        assert(twin_ok(he, x));
        assert(links_ok(he, x, before.vertices@.len() as int, before.faces@.len() as int));
        assert(closed_at(ah, x));
        let w = he[x].twin as int;
        assert(link_ok(he, back, none, w));
        assert(origin_ok(he, none, w));
        let y = he[x].next as int;
        assert(link_ok(he, back, none, y));
        let z = ah[x].prev as int;
        assert(link_ok(he, back, none, z));
    }
    assert forall|v: int| 0 <= v < after.vertices@.len() implies #[trigger] prune_vertex_ok(
        ah,
        after.vertices@,
        0,
        v,
    ) by {
        assert(vertex_ok(he, before.vertices@, v));
        let s = before.vertices@[v].incident_edge as int;
        assert(twin_ok(he, s));
        let w = he[s].twin as int;
        assert(origin_ok(he, none, w));
    }
}

/// An edge list that is ready when the vertices below `from` have been
/// looked at is ready when one more has been.
pub proof fn lemma_pruning_step(he: Seq<HalfEdge>, vertices: Seq<Vertex>, from: int)
    requires
        pruning(he, vertices, from),
    ensures
        pruning(he, vertices, from + 1),
{
    assert forall|x: int| 0 <= x < he.len() implies #[trigger] prune_edge_ok(
        he,
        vertices.len() as int,
        from + 1,
        x,
    ) by {
        assert(prune_edge_ok(he, vertices.len() as int, from, x));
    }
    assert forall|v: int| 0 <= v < vertices.len() implies #[trigger] prune_vertex_ok(he, vertices, from + 1, v) by {
        assert(prune_vertex_ok(he, vertices, from, v));
    }
}

/// Taking a live half-edge that starts at a vertex below `from`, and its
/// twin, out of an edge list that is ready for it leaves it ready.
pub proof fn lemma_pruning_without_edge(before: DCEL, after: DCEL, from: int, edge: usize)
    requires
        before.wf(),
        pruning(before.halfedges@, before.vertices@, from),
        edge < before.halfedges@.len(),
        before.halfedges@[edge as int].alive,
        before.halfedges@[edge as int].origin < from,
        after.halfedges@ == DCEL::without_edge(before.halfedges@, edge),
        after.vertices@.len() == before.vertices@.len(),
        forall|v: int|
            0 <= v < before.vertices@.len() ==> (#[trigger] after.vertices@[v]).incident_edge
                == before.vertices@[v].incident_edge,
    ensures
        pruning(after.halfedges@, after.vertices@, from),
{
    let he = before.halfedges@;
    let ah = after.halfedges@;
    let nv = before.vertices@.len() as int;
    let e = edge as int;
    assert(twin_ok(he, e));
    let t = he[e].twin as int;
    assert(twin_ok(he, t));
    assert(prune_edge_ok(he, nv, from, e));
    assert(prune_edge_ok(he, nv, from, t));
    DCEL::lemma_without_edge_fields(he, edge);
    let ep = he[e].prev as int;
    let en = he[e].next as int;
    let tp = he[t].prev as int;
    let tn = he[t].next as int;
    assert(prune_edge_ok(he, nv, from, ep));
    assert(prune_edge_ok(he, nv, from, en));
    assert(prune_edge_ok(he, nv, from, tp));
    assert(prune_edge_ok(he, nv, from, tn));
    assert(twin_ok(he, ep));
    assert(twin_ok(he, tp));
    assert forall|x: int| 0 <= x < ah.len() implies #[trigger] prune_edge_ok(ah, nv, from, x) by {
        assert(prune_edge_ok(he, nv, from, x));
        assert(twin_ok(he, x));
        let w = he[x].twin as int;
        assert(prune_edge_ok(he, nv, from, w));
        if he[x].alive {
            let xn = he[x].next as int;
            let xp = he[x].prev as int;
            assert(prune_edge_ok(he, nv, from, xn));
            assert(prune_edge_ok(he, nv, from, xp));
        }
    }
    assert forall|v: int| 0 <= v < after.vertices@.len() implies #[trigger] prune_vertex_ok(
        ah,
        after.vertices@,
        from,
        v,
    ) by {
        assert(prune_vertex_ok(he, before.vertices@, from, v));
        let s = before.vertices@[v].incident_edge as int;
        assert(twin_ok(he, s));
        let w = he[s].twin as int;
        assert(twin_ok(he, w));
        assert(prune_edge_ok(he, nv, from, s));
        assert(prune_edge_ok(he, nv, from, w));
    }
}

/// The walk round the origin of a live half-edge stays among the live
/// half-edges that start there.
pub proof fn lemma_fan_walk(he: Seq<HalfEdge>, vertices: Seq<Vertex>, from: int, s: usize, k: nat)
    requires
        pruning(he, vertices, from),
        forall|x: int| 0 <= x < he.len() ==> #[trigger] twin_ok(he, x),
        s < he.len(),
        he[s as int].alive,
    ensures
        walk_around(he, s, k) < he.len(),
        he[walk_around(he, s, k) as int].alive,
        he[walk_around(he, s, k) as int].origin == he[s as int].origin,
    decreases k,
{
    if k > 0 {
        lemma_fan_walk(he, vertices, from, s, (k - 1) as nat);
        let m = walk_around(he, s, (k - 1) as nat) as int;
        assert(twin_ok(he, m));
        assert(prune_edge_ok(he, vertices.len() as int, from, m));
        let w = he[m].twin as int;
        assert(twin_ok(he, w));
        assert(prune_edge_ok(he, vertices.len() as int, from, w));
    }
}

/// Where the walk round the origin of a live half-edge is at the same
/// half-edge after `i` steps and after `j`, it is back at its start after
/// the steps that lie between.
pub proof fn lemma_fan_walk_back(
    he: Seq<HalfEdge>,
    vertices: Seq<Vertex>,
    from: int,
    s: usize,
    i: nat,
    j: nat,
)
    requires
        pruning(he, vertices, from),
        forall|x: int| 0 <= x < he.len() ==> #[trigger] twin_ok(he, x),
        s < he.len(),
        he[s as int].alive,
        i <= j,
        walk_around(he, s, i) == walk_around(he, s, j),
    ensures
        walk_around(he, s, (j - i) as nat) == s,
    decreases i,
{
    if i > 0 {
        let a = walk_around(he, s, (i - 1) as nat) as int;
        let b = walk_around(he, s, (j - 1) as nat) as int;
        lemma_fan_walk(he, vertices, from, s, (i - 1) as nat);
        lemma_fan_walk(he, vertices, from, s, (j - 1) as nat);
        assert(twin_ok(he, a));
        assert(twin_ok(he, b));
        let wa = he[a].twin as int;
        let wb = he[b].twin as int;
        assert(prune_edge_ok(he, vertices.len() as int, from, a));
        assert(prune_edge_ok(he, vertices.len() as int, from, b));
        assert(prune_edge_ok(he, vertices.len() as int, from, wa));
        assert(prune_edge_ok(he, vertices.len() as int, from, wb));
        assert(wa == wb);
        assert(a == b);
        lemma_fan_walk_back(he, vertices, from, s, (i - 1) as nat, (j - 1) as nat);
    }
}

/// The walk round the vertex `u` closes in an edge list that is ready for
/// the taking away of `u`.
pub proof fn lemma_fan_closes(he: Seq<HalfEdge>, vertices: Seq<Vertex>, u: int)
    requires
        pruning(he, vertices, u),
        forall|x: int| 0 <= x < he.len() ==> #[trigger] twin_ok(he, x),
        0 <= u < vertices.len(),
        vertices[u].incident_edge < he.len(),
    ensures
        fan_closes(he, vertices[u].incident_edge),
{
    let s = vertices[u].incident_edge;
    let n = he.len() as int;
    assert(prune_vertex_ok(he, vertices, u, u));
    assert(twin_ok(he, s as int));
    let t = he[s as int].twin as int;
    assert(prune_edge_ok(he, vertices.len() as int, u, s as int));
    assert(prune_edge_ok(he, vertices.len() as int, u, t));
    if he[t].next == s {
        assert(walk_around(he, s, 0) == s);
        assert(walk_around(he, s, 1) == s);
    } else {
        assert(he[s as int].alive);
        let at = |i: int| walk_around(he, s, i as nat) as int;
        let steps = vstd::set_lib::set_int_range(0, n + 1);
        let places = steps.map(at);
        vstd::set_lib::lemma_int_range(0, n + 1);
        vstd::set_lib::lemma_int_range(0, n);
        assert forall|v: int| places.contains(v) implies vstd::set_lib::set_int_range(0, n).contains(v) by {
            let i = choose|i: int| steps.contains(i) && v == at(i);
            lemma_fan_walk(he, vertices, u, s, i as nat);
        }
        assert(places.subset_of(vstd::set_lib::set_int_range(0, n)));
        vstd::set_lib::lemma_len_subset(places, vstd::set_lib::set_int_range(0, n));
        if vstd::relations::injective_on(at, steps) {
            vstd::set_lib::lemma_map_size(steps, places, at);
            assert(false);
        }
        let (a, b) = choose|a: int, b: int|
            steps.contains(a) && steps.contains(b) && #[trigger] at(a) == #[trigger] at(b) && a != b;
        if a < b {
            lemma_fan_walk_back(he, vertices, u, s, a as nat, b as nat);
            assert(walk_around(he, s, (b - a) as nat) == s);
        } else {
            lemma_fan_walk_back(he, vertices, u, s, b as nat, a as nat);
            assert(walk_around(he, s, (a - b) as nat) == s);
        }
    }
}

/// The half-edge that follows `x` round the origin of `x`: the `next` of
/// the twin of `x`.
pub open spec fn around(he: Seq<HalfEdge>, x: int) -> usize {
    he[he[x].twin as int].next
}

/// What holds of a live half-edge `x` that starts at a vertex from `from`
/// on, where `turns` counts down round each vertex: with no turn left, `x`
/// is the incident half-edge of its origin; otherwise the half-edge that
/// follows `x` round the origin starts there too and has fewer turns left.
pub open spec fn fan_ok(he: Seq<HalfEdge>, vertices: Seq<Vertex>, turns: Seq<nat>, from: int, x: int) -> bool {
    he[x].alive && from <= he[x].origin < vertices.len() ==> {
        if turns[x] == 0 {
            vertices[he[x].origin as int].incident_edge == x
        } else {
            &&& around(he, x) < he.len()
            &&& he[around(he, x) as int].origin == he[x].origin
            &&& turns[around(he, x) as int] < turns[x]
        }
    }
}

/// `fan_ok` holds of every half-edge.
pub open spec fn fanned_with(he: Seq<HalfEdge>, vertices: Seq<Vertex>, turns: Seq<nat>, from: int) -> bool {
    &&& turns.len() == he.len()
    &&& forall|x: int| 0 <= x < he.len() ==> #[trigger] fan_ok(he, vertices, turns, from, x)
}

/// Round every vertex from `from` on, the walk from any live half-edge
/// that starts there leads to the incident half-edge of the vertex: the
/// half-edges that start at a vertex form one fan.
pub open spec fn fanned(he: Seq<HalfEdge>, vertices: Seq<Vertex>, from: int) -> bool {
    exists|turns: Seq<nat>| #[trigger] fanned_with(he, vertices, turns, from)
}

/// If the half-edge `x` is live and has an origin, the origin is a live
/// vertex.
pub open spec fn rooted_at(he: Seq<HalfEdge>, vertices: Seq<Vertex>, x: int) -> bool {
    he[x].alive && he[x].origin < vertices.len() ==> vertices[he[x].origin as int].alive
}

impl DCEL {
    /// Every live half-edge that has an origin starts at a live vertex.
    pub open spec fn live_origins(&self) -> bool {
        forall|x: int| 0 <= x < self.halfedges@.len() ==> #[trigger] rooted_at(self.halfedges@, self.vertices@, x)
    }

    /// The half-edges that start at a vertex form one fan.
    pub open spec fn fans(&self) -> bool {
        fanned(self.halfedges@, self.vertices@, 0)
    }

    /// Every vertex is live.
    pub open spec fn vertices_live(&self) -> bool {
        forall|v: int| 0 <= v < self.vertices@.len() ==> (#[trigger] self.vertices@[v]).alive
    }
}

/// Beginning a line leaves the fans as they are and adds a fan of one.
pub proof fn lemma_begin_keeps_fans(he: Seq<HalfEdge>, vertices: Seq<Vertex>, start: Point)
    requires
        fanned(he, vertices, 0),
        forall|x: int| 0 <= x < he.len() ==> #[trigger] twin_ok(he, x),
        forall|x: int| 0 <= x < he.len() ==> index_or_nil((#[trigger] he[x]).origin, vertices.len() as int),
        he.len() + 2 < NIL,
        vertices.len() + 1 < NIL,
    ensures
        fanned(
            line_begun(he, vertices.len()),
            vertices.push(Vertex { coordinates: start, incident_edge: he.len() as usize, alive: true }),
            0,
        ),
{
    let turns = choose|turns: Seq<nat>| #[trigger] fanned_with(he, vertices, turns, 0);
    let he2 = line_begun(he, vertices.len());
    let v2 = vertices.push(Vertex { coordinates: start, incident_edge: he.len() as usize, alive: true });
    let turns2 = turns.push(0).push(0);
    assert forall|x: int| 0 <= x < he2.len() implies #[trigger] fan_ok(he2, v2, turns2, 0, x) by {
        if x < he.len() {
            assert(fan_ok(he, vertices, turns, 0, x));
            assert(twin_ok(he, x));
            assert(index_or_nil(he[x].origin, vertices.len() as int));
            if he[x].alive && he[x].origin < vertices.len() && turns[x] != 0 {
                let y = around(he, x) as int;
                assert(he2[y] == he[y]);
            }
        }
    }
    assert(fanned_with(he2, v2, turns2, 0));
}

/// Carrying a line across a half-edge leaves the fans as they are and adds
/// a fan of four round the new vertex.
pub proof fn lemma_cut_keeps_fans(
    he: Seq<HalfEdge>,
    vertices: Seq<Vertex>,
    needs_next: usize,
    needs_prev: usize,
    cut: usize,
    pt: Point,
)
    requires
        fanned(he, vertices, 0),
        forall|x: int| 0 <= x < he.len() ==> #[trigger] twin_ok(he, x),
        forall|x: int| 0 <= x < he.len() ==> index_or_nil((#[trigger] he[x]).origin, vertices.len() as int),
        needs_next < he.len(),
        needs_prev < he.len(),
        cut < he.len(),
        cut != needs_next,
        cut != needs_prev,
        he[needs_prev as int].twin == needs_next,
        he[needs_prev as int].origin == NIL,
        he.len() + 4 < NIL,
        vertices.len() + 1 < NIL,
    ensures
        fanned(
            line_cut(he, vertices.len(), needs_next, needs_prev, cut),
            vertices.push(Vertex { coordinates: pt, incident_edge: he.len() as usize, alive: true }),
            0,
        ),
{
    let turns = choose|turns: Seq<nat>| #[trigger] fanned_with(he, vertices, turns, 0);
    let t = he.len() as int;
    let he2 = line_cut(he, vertices.len(), needs_next, needs_prev, cut);
    let v2 = vertices.push(Vertex { coordinates: pt, incident_edge: he.len() as usize, alive: true });
    let turns2 = turns.update(needs_prev as int, 2).push(0).push(0).push(1).push(3);
    let c2 = he[cut as int].twin;
    assert(twin_ok(he, cut as int));
    assert(twin_ok(he, needs_prev as int));
    assert(twin_ok(he, needs_next as int));
    DCEL::lemma_line_cut_fields(he, vertices.len(), needs_next, needs_prev, cut);
    DCEL::lemma_line_cut_next(he, vertices.len(), needs_next, needs_prev, cut);
    assert forall|x: int| 0 <= x < he2.len() implies #[trigger] fan_ok(he2, v2, turns2, 0, x) by {
        if x < t && x != needs_prev {
            assert(fan_ok(he, vertices, turns, 0, x));
            assert(twin_ok(he, x));
            assert(index_or_nil(he[x].origin, vertices.len() as int));
            let w = he[x].twin as int;
            assert(twin_ok(he, w));
            if he[x].alive && he[x].origin < vertices.len() && turns[x] != 0 {
                let y = around(he, x) as int;
                assert(y != needs_prev);
                assert(he2[y].origin == he[y].origin);
                assert(around(he2, x) == y);
            }
        } else if x == needs_prev {
            assert(he2[x].twin == needs_next);
            assert(around(he2, x) == t + 2);
        } else if x == t {
        } else if x == t + 1 {
        } else if x == t + 2 {
            assert(around(he2, x) == t);
        } else {
            assert(around(he2, x) == needs_prev);
        }
    }
    assert(fanned_with(he2, v2, turns2, 0));
}

/// Ending a line leaves the fans as they are and adds a fan of one.
pub proof fn lemma_end_keeps_fans(
    he: Seq<HalfEdge>,
    vertices: Seq<Vertex>,
    needs_next: usize,
    needs_prev: usize,
    pt: Point,
)
    requires
        fanned(he, vertices, 0),
        forall|x: int| 0 <= x < he.len() ==> #[trigger] twin_ok(he, x),
        forall|x: int| 0 <= x < he.len() ==> index_or_nil((#[trigger] he[x]).origin, vertices.len() as int),
        needs_next < he.len(),
        needs_prev < he.len(),
        he[needs_prev as int].twin == needs_next,
        he[needs_prev as int].origin == NIL,
        vertices.len() + 1 < NIL,
    ensures
        fanned(
            line_ended(he, vertices.len(), needs_next, needs_prev),
            vertices.push(Vertex { coordinates: pt, incident_edge: needs_prev, alive: true }),
            0,
        ),
{
    let turns = choose|turns: Seq<nat>| #[trigger] fanned_with(he, vertices, turns, 0);
    let he2 = line_ended(he, vertices.len(), needs_next, needs_prev);
    let v2 = vertices.push(Vertex { coordinates: pt, incident_edge: needs_prev, alive: true });
    let turns2 = turns.update(needs_prev as int, 0);
    assert(twin_ok(he, needs_prev as int));
    assert(twin_ok(he, needs_next as int));
    assert forall|x: int| 0 <= x < he2.len() implies #[trigger] fan_ok(he2, v2, turns2, 0, x) by {
        if x != needs_prev {
            assert(fan_ok(he, vertices, turns, 0, x));
            assert(twin_ok(he, x));
            assert(index_or_nil(he[x].origin, vertices.len() as int));
            let w = he[x].twin as int;
            assert(twin_ok(he, w));
            if he[x].alive && he[x].origin < vertices.len() && turns[x] != 0 {
                let y = around(he, x) as int;
                assert(y != needs_prev);
                assert(around(he2, x) == y);
            }
        }
    }
    assert(fanned_with(he2, v2, turns2, 0));
}

/// The fans of the vertices from `from` on are fans of the vertices from
/// one further on.
pub proof fn lemma_fans_step(he: Seq<HalfEdge>, vertices: Seq<Vertex>, from: int)
    requires
        fanned(he, vertices, from),
    ensures
        fanned(he, vertices, from + 1),
{
    let turns = choose|turns: Seq<nat>| #[trigger] fanned_with(he, vertices, turns, from);
    assert forall|x: int| 0 <= x < he.len() implies #[trigger] fan_ok(he, vertices, turns, from + 1, x) by {
        assert(fan_ok(he, vertices, turns, from, x));
    }
    assert(fanned_with(he, vertices, turns, from + 1));
}

/// A fresh twin pair without origins leaves the fans as they are.
pub proof fn lemma_twins_keep_fans(he: Seq<HalfEdge>, grown: Seq<HalfEdge>, vertices: Seq<Vertex>)
    requires
        fanned(he, vertices, 0),
        forall|x: int| 0 <= x < he.len() ==> #[trigger] twin_ok(he, x),
        grown.len() == he.len() + 2,
        forall|x: int| 0 <= x < he.len() ==> #[trigger] grown[x] == he[x],
        grown[he.len() as int].origin == NIL,
        grown[he.len() as int + 1].origin == NIL,
        vertices.len() < NIL,
    ensures
        fanned(grown, vertices, 0),
{
    let turns = choose|turns: Seq<nat>| #[trigger] fanned_with(he, vertices, turns, 0);
    let turns2 = turns.push(0).push(0);
    assert forall|x: int| 0 <= x < grown.len() implies #[trigger] fan_ok(grown, vertices, turns2, 0, x) by {
        if x < he.len() {
            assert(fan_ok(he, vertices, turns, 0, x));
            assert(twin_ok(he, x));
            assert(grown[x] == he[x]);
            let w = he[x].twin as int;
            assert(grown[w] == he[w]);
            if he[x].alive && he[x].origin < vertices.len() && turns[x] != 0 {
                let y = around(he, x) as int;
                assert(grown[y] == he[y]);
            }
        }
    }
    assert(fanned_with(grown, vertices, turns2, 0));
}

/// A vertex where two boundaries meet gets a fan of three, and the other
/// fans stay as they are.
pub proof fn lemma_join_keeps_fans(
    he: Seq<HalfEdge>,
    vertices: Seq<Vertex>,
    pred_edge: usize,
    succ_edge: usize,
    parent_edge: usize,
    other_edge: usize,
    center: Point,
)
    requires
        fanned(he, vertices, 0),
        forall|x: int| 0 <= x < he.len() ==> #[trigger] twin_ok(he, x),
        forall|x: int| 0 <= x < he.len() ==> index_or_nil((#[trigger] he[x]).origin, vertices.len() as int),
        pred_edge < he.len(),
        succ_edge < he.len(),
        pred_edge != succ_edge,
        he[pred_edge as int].twin != succ_edge,
        (parent_edge == pred_edge && other_edge == succ_edge) || (parent_edge == succ_edge && other_edge
            == pred_edge),
        he[pred_edge as int].origin == NIL,
        he[succ_edge as int].origin == NIL,
        he.len() + 2 < NIL,
        vertices.len() + 1 < NIL,
    ensures
        fanned(
            joined(he, vertices.len() as usize, pred_edge, succ_edge, parent_edge, other_edge),
            vertices.push(Vertex { coordinates: center, incident_edge: he.len() as usize, alive: true }),
            0,
        ),
{
    let turns = choose|turns: Seq<nat>| #[trigger] fanned_with(he, vertices, turns, 0);
    let t = he.len() as int;
    let he2 = joined(he, vertices.len() as usize, pred_edge, succ_edge, parent_edge, other_edge);
    let v2 = vertices.push(Vertex { coordinates: center, incident_edge: he.len() as usize, alive: true });
    let turns2 = turns.update(pred_edge as int, 2).update(succ_edge as int, 1).push(0).push(0);
    assert(twin_ok(he, pred_edge as int));
    assert(twin_ok(he, succ_edge as int));
    let pet = he[pred_edge as int].twin as int;
    let set = he[succ_edge as int].twin as int;
    assert(twin_ok(he, pet));
    assert(twin_ok(he, set));
    lemma_joined_links(he, vertices.len() as usize, pred_edge, succ_edge, parent_edge, other_edge);
    assert forall|x: int| 0 <= x < he2.len() implies #[trigger] fan_ok(he2, v2, turns2, 0, x) by {
        if x < t && x != pred_edge && x != succ_edge {
            assert(fan_ok(he, vertices, turns, 0, x));
            assert(twin_ok(he, x));
            assert(index_or_nil(he[x].origin, vertices.len() as int));
            let w = he[x].twin as int;
            assert(twin_ok(he, w));
            if he[x].alive && he[x].origin < vertices.len() && turns[x] != 0 {
                let y = around(he, x) as int;
                assert(y != pred_edge && y != succ_edge);
                assert(around(he2, x) == y);
            }
        } else if x == pred_edge {
            assert(around(he2, x) == succ_edge);
        } else if x == succ_edge {
            assert(around(he2, x) == t);
        } else if x == t {
        } else {
        }
    }
    assert(fanned_with(he2, v2, turns2, 0));
}

/// A vertex at the start of an unfinished half-edge, into which its twin
/// leads, gets a fan of one, and the other fans stay as they are.
pub proof fn lemma_start_keeps_fans(
    he: Seq<HalfEdge>,
    after: Seq<HalfEdge>,
    vertices: Seq<Vertex>,
    edge: usize,
    pt: Point,
)
    requires
        fanned(he, vertices, 0),
        forall|x: int| 0 <= x < he.len() ==> #[trigger] twin_ok(he, x),
        forall|x: int| 0 <= x < he.len() ==> index_or_nil((#[trigger] he[x]).origin, vertices.len() as int),
        edge < he.len(),
        he[edge as int].origin == NIL,
        vertices.len() + 1 < NIL,
        after.len() == he.len(),
        forall|x: int|
            0 <= x < he.len() ==> {
                &&& (#[trigger] after[x]).twin == he[x].twin
                &&& after[x].alive == he[x].alive
                &&& after[x].origin == if x == edge {
                    vertices.len() as usize
                } else {
                    he[x].origin
                }
                &&& after[x].next == if x == he[edge as int].twin {
                    edge
                } else {
                    he[x].next
                }
            },
    ensures
        fanned(after, vertices.push(Vertex { coordinates: pt, incident_edge: edge, alive: true }), 0),
{
    let turns = choose|turns: Seq<nat>| #[trigger] fanned_with(he, vertices, turns, 0);
    let v2 = vertices.push(Vertex { coordinates: pt, incident_edge: edge, alive: true });
    let turns2 = turns.update(edge as int, 0);
    assert(twin_ok(he, edge as int));
    assert forall|x: int| 0 <= x < after.len() implies #[trigger] fan_ok(after, v2, turns2, 0, x) by {
        if x != edge {
            assert(fan_ok(he, vertices, turns, 0, x));
            assert(twin_ok(he, x));
            assert(index_or_nil(he[x].origin, vertices.len() as int));
            let w = he[x].twin as int;
            assert(twin_ok(he, w));
            if he[x].alive && he[x].origin < vertices.len() && turns[x] != 0 {
                let y = around(he, x) as int;
                assert(y != edge);
                assert(around(after, x) == y);
            }
        }
    }
    assert(fanned_with(after, v2, turns2, 0));
}

/// Entering every half-edge as the `prev` of its `next` leaves the fans as
/// they are.
pub proof fn lemma_prev_keeps_fans(before: Seq<HalfEdge>, after: Seq<HalfEdge>, vertices: Seq<Vertex>)
    requires
        fanned(before, vertices, 0),
        forall|x: int| 0 <= x < before.len() ==> #[trigger] twin_ok(before, x),
        DCEL::prev_is_set(before, after),
    ensures
        fanned(after, vertices, 0),
{
    let turns = choose|turns: Seq<nat>| #[trigger] fanned_with(before, vertices, turns, 0);
    assert forall|x: int| 0 <= x < after.len() implies #[trigger] fan_ok(after, vertices, turns, 0, x) by {
        assert(fan_ok(before, vertices, turns, 0, x));
        assert(twin_ok(before, x));
        if before[x].alive && before[x].origin < vertices.len() && turns[x] != 0 {
            let y = around(before, x) as int;
            assert(around(after, x) == y);
        }
    }
    assert(fanned_with(after, vertices, turns, 0));
}

/// While vertices are taken away, two live half-edges that are followed
/// round their origin by the same half-edge are the same.
pub proof fn lemma_around_one_to_one(he: Seq<HalfEdge>, vertices: Seq<Vertex>, from: int, a: int, b: int)
    requires
        pruning(he, vertices, from),
        forall|x: int| 0 <= x < he.len() ==> #[trigger] twin_ok(he, x),
        0 <= a < he.len(),
        0 <= b < he.len(),
        he[a].alive,
        he[b].alive,
        around(he, a) == around(he, b),
    ensures
        a == b,
{
    assert(twin_ok(he, a));
    assert(twin_ok(he, b));
    assert(prune_edge_ok(he, vertices.len() as int, from, a));
    assert(prune_edge_ok(he, vertices.len() as int, from, b));
    let wa = he[a].twin as int;
    let wb = he[b].twin as int;
    assert(prune_edge_ok(he, vertices.len() as int, from, wa));
    assert(prune_edge_ok(he, vertices.len() as int, from, wb));
}

/// When the turn of the vertex `v` comes, every live half-edge that starts
/// at `v` lies on the walk round `v` from its incident half-edge.
pub proof fn lemma_fan_holds_all(
    he: Seq<HalfEdge>,
    vertices: Seq<Vertex>,
    turns: Seq<nat>,
    v: int,
    len: nat,
    x: int,
)
    requires
        pruning(he, vertices, v),
        fanned_with(he, vertices, turns, v),
        forall|e: int| 0 <= e < he.len() ==> #[trigger] twin_ok(he, e),
        0 <= v < vertices.len(),
        vertices[v].incident_edge < he.len(),
        fan_of(he, vertices[v].incident_edge, len),
        0 <= x < he.len(),
        he[x].alive,
        he[x].origin == v,
    ensures
        he[vertices[v].incident_edge as int].alive,
        exists|j: nat| j < len && #[trigger] walk_around(he, vertices[v].incident_edge, j) == x,
    decreases turns[x],
{
    let s = vertices[v].incident_edge;
    assert(fan_ok(he, vertices, turns, v, x));
    assert(walk_around(he, s, 0) == s);
    if turns[x] == 0 {
        assert(x == s);
    } else {
        let y = around(he, x) as int;
        assert(twin_ok(he, x));
        assert(prune_edge_ok(he, vertices.len() as int, v, x));
        let w = he[x].twin as int;
        assert(prune_edge_ok(he, vertices.len() as int, v, w));
        assert(he[y].alive);
        lemma_fan_holds_all(he, vertices, turns, v, len, y);
        let j = choose|j: nat| j < len && #[trigger] walk_around(he, s, j) == y;
        let i: nat = if j == 0 {
            (len - 1) as nat
        } else {
            (j - 1) as nat
        };
        lemma_fan_walk(he, vertices, v, s, i);
        let z = walk_around(he, s, i) as int;
        assert(twin_ok(he, z));
        assert(walk_around(he, s, i + 1) == around(he, z));
        if j == 0 {
            assert(walk_around(he, s, len) == s);
        }
        assert(around(he, z) == y);
        lemma_around_one_to_one(he, vertices, v, z, x);
        assert(walk_around(he, s, i) == x);
    }
}

/// Taking a live half-edge that starts at a vertex below `from`, and its
/// twin, out of the edge list leaves the fans of the vertices from `from`
/// on as fans.
pub proof fn lemma_fans_without_edge(before: DCEL, after: DCEL, turns: Seq<nat>, from: int, edge: usize)
    requires
        before.wf(),
        pruning(before.halfedges@, before.vertices@, from),
        fanned_with(before.halfedges@, before.vertices@, turns, from),
        edge < before.halfedges@.len(),
        before.halfedges@[edge as int].alive,
        before.halfedges@[edge as int].origin < from,
        after.halfedges@ == DCEL::without_edge(before.halfedges@, edge),
        after.vertices@.len() == before.vertices@.len(),
        forall|v: int|
            0 <= v < before.vertices@.len() ==> (#[trigger] after.vertices@[v]).incident_edge
                == before.vertices@[v].incident_edge,
    ensures
        fanned_with(after.halfedges@, after.vertices@, turns, from),
{
    let he = before.halfedges@;
    let ah = after.halfedges@;
    let nv = before.vertices@.len() as int;
    let e = edge as int;
    assert(twin_ok(he, e));
    let t = he[e].twin as int;
    assert(twin_ok(he, t));
    assert(prune_edge_ok(he, nv, from, e));
    assert(prune_edge_ok(he, nv, from, t));
    DCEL::lemma_without_edge_fields(he, edge);
    let ep = he[e].prev as int;
    let tp = he[t].prev as int;
    assert forall|x: int| 0 <= x < he.len() implies twin_ok(he, x) by {}
    assert forall|x: int| 0 <= x < ah.len() implies #[trigger] fan_ok(ah, after.vertices@, turns, from, x) by {
        assert(ah[x] == DCEL::without_edge(he, edge)[x]);
        if ah[x].alive && from <= ah[x].origin < nv {
            assert(fan_ok(he, before.vertices@, turns, from, x));
            assert(twin_ok(he, x));
            assert(prune_edge_ok(he, nv, from, x));
            let w = he[x].twin as int;
            assert(twin_ok(he, w));
            assert(prune_edge_ok(he, nv, from, w));
            assert(ah[w] == DCEL::without_edge(he, edge)[w]);
            if turns[x] != 0 {
                let y = around(he, x) as int;
                if w == tp {
                    assert(y == t);
                    assert(fan_ok(he, before.vertices@, turns, from, t));
                    if turns[t] == 0 {
                        assert(prune_vertex_ok(he, before.vertices@, from, he[t].origin as int));
                        assert(around(he, t) == t);
                        lemma_around_one_to_one(he, before.vertices@, from, x, t);
                    }
                    let z = around(he, t) as int;
                    assert(ah[z] == DCEL::without_edge(he, edge)[z]);
                    assert(around(ah, x) == z);
                } else if w == ep {
                    assert(y == e);
                } else {
                    assert(ah[y] == DCEL::without_edge(he, edge)[y]);
                    assert(around(ah, x) == y);
                }
            }
        }
    }
}

/// A sequence with one more item in it holds what it held, and the item.
pub proof fn lemma_insert_to_multiset<A>(s: Seq<A>, i: int, a: A)
    requires
        0 <= i <= s.len(),
    ensures
        s.insert(i, a).to_multiset() =~= s.to_multiset().insert(a),
{
    broadcast use vstd::seq_lib::group_to_multiset_ensures;

    let t = s.insert(i, a);
    assert(t.remove(i) =~= s);
    assert(t[i] == a);
    assert(t.remove(i).to_multiset() =~= t.to_multiset().remove(a));
    assert(t.contains(a));
    assert(t.to_multiset().count(a) > 0);
    assert(t.to_multiset() =~= t.to_multiset().remove(a).insert(a));
}

/// No crossing of the list comes before one that stands earlier in it.
pub open spec fn in_sweep_order(list: Seq<Crossing>) -> bool {
    forall|i: int, j: int| 0 <= i < j < list.len() ==> !point_lt((#[trigger] list[j]).0, (#[trigger] list[i]).0)
}

/// In a list in sweep order, the slot for a point stands behind the
/// crossings that the point does not come before, and before those that it
/// comes before.
pub proof fn lemma_slot_by_point(sorted: Seq<Crossing>, pt: Point)
    requires
        in_sweep_order(sorted),
    ensures
        0 <= slot_by_point(sorted, pt) <= sorted.len(),
        forall|i: int| 0 <= i < slot_by_point(sorted, pt) ==> !point_lt(pt, (#[trigger] sorted[i]).0),
        forall|i: int| slot_by_point(sorted, pt) <= i < sorted.len() ==> point_lt(pt, (#[trigger] sorted[i]).0),
    decreases sorted.len(),
{
    if sorted.len() > 0 {
        if !point_lt(pt, sorted.last().0) {
            assert forall|i: int| 0 <= i < sorted.len() implies !point_lt(pt, (#[trigger] sorted[i]).0) by {
                if i < sorted.len() - 1 {
                    assert(!point_lt(sorted[sorted.len() - 1].0, sorted[i].0));
                    crate::point::lemma_point_order_total(pt, sorted[i].0, sorted.last().0);
                    crate::point::lemma_point_order_total(sorted[i].0, sorted.last().0, pt);
                    crate::point::lemma_point_order_total(sorted.last().0, pt, sorted[i].0);
                }
            }
        } else {
            let shorter = sorted.drop_last();
            assert forall|i: int, j: int| 0 <= i < j < shorter.len() implies !point_lt(
                (#[trigger] shorter[j]).0,
                (#[trigger] shorter[i]).0,
            ) by {
                assert(shorter[i] == sorted[i] && shorter[j] == sorted[j]);
            }
            lemma_slot_by_point(shorter, pt);
            assert forall|i: int| slot_by_point(sorted, pt) <= i < sorted.len() implies point_lt(
                pt,
                (#[trigger] sorted[i]).0,
            ) by {
                if i < sorted.len() - 1 {
                    assert(shorter[i] == sorted[i]);
                }
            }
            assert forall|i: int| 0 <= i < slot_by_point(sorted, pt) implies !point_lt(
                pt,
                (#[trigger] sorted[i]).0,
            ) by {
                assert(shorter[i] == sorted[i]);
            }
        }
    }
}

/// The sorted crossings are the crossings that were given, in sweep order.
pub proof fn lemma_sorted_by_point(list: Seq<Crossing>)
    ensures
        in_sweep_order(sorted_by_point(list)),
        sorted_by_point(list).to_multiset() =~= list.to_multiset(),
        sorted_by_point(list).len() == list.len(),
    decreases list.len(),
{
    broadcast use vstd::seq_lib::group_to_multiset_ensures;

    if list.len() > 0 {
        let rest = sorted_by_point(list.drop_last());
        let item = list.last();
        lemma_sorted_by_point(list.drop_last());
        lemma_slot_by_point(rest, item.0);
        let k = slot_by_point(rest, item.0);
        let grown = rest.insert(k, item);
        assert forall|i: int, j: int| 0 <= i < j < grown.len() implies !point_lt(
            (#[trigger] grown[j]).0,
            (#[trigger] grown[i]).0,
        ) by {
            let a = if i < k {
                rest[i]
            } else if i == k {
                item
            } else {
                rest[i - 1]
            };
            let b = if j < k {
                rest[j]
            } else if j == k {
                item
            } else {
                rest[j - 1]
            };
            assert(grown[i] == a && grown[j] == b);
            if j < k {
                assert(!point_lt(rest[j].0, rest[i].0));
            } else if j == k {
            } else if i < k {
                crate::point::lemma_point_order_total(b.0, a.0, item.0);
                crate::point::lemma_point_order_total(item.0, b.0, a.0);
                crate::point::lemma_point_order_total(a.0, item.0, b.0);
            } else if i == k {
                crate::point::lemma_point_order_total(item.0, b.0, item.0);
            } else {
                assert(!point_lt(rest[j - 1].0, rest[i - 1].0));
            }
        }
        lemma_insert_to_multiset(rest, k, item);
        assert(list =~= list.drop_last().push(item));
        assert(list.to_multiset() =~= list.drop_last().to_multiset().insert(item));
    }
}

/// No polygon of the list has fewer corners than one that stands earlier
/// in it.
pub open spec fn by_corners(polys: Seq<Seq<Point>>) -> bool {
    forall|i: int, j: int| 0 <= i < j < polys.len() ==> (#[trigger] polys[i]).len() <= (#[trigger] polys[j]).len()
}

/// In a list sorted by the number of corners, the slot for a number stands
/// behind the polygons with no more corners, and before those with more.
pub proof fn lemma_slot_by_len(sorted: Seq<Seq<Point>>, corners: nat)
    requires
        by_corners(sorted),
    ensures
        0 <= slot_by_len(sorted, corners) <= sorted.len(),
        forall|i: int| 0 <= i < slot_by_len(sorted, corners) ==> (#[trigger] sorted[i]).len() <= corners,
        forall|i: int| slot_by_len(sorted, corners) <= i < sorted.len() ==> (#[trigger] sorted[i]).len() > corners,
    decreases sorted.len(),
{
    if sorted.len() > 0 {
        if sorted.last().len() <= corners {
            assert forall|i: int| 0 <= i < sorted.len() implies (#[trigger] sorted[i]).len() <= corners by {
                if i < sorted.len() - 1 {
                    assert(sorted[i].len() <= sorted[sorted.len() - 1].len());
                }
            }
        } else {
            let shorter = sorted.drop_last();
            assert forall|i: int, j: int| 0 <= i < j < shorter.len() implies (#[trigger] shorter[i]).len() <= (
            #[trigger] shorter[j]).len() by {
                assert(shorter[i] == sorted[i] && shorter[j] == sorted[j]);
            }
            lemma_slot_by_len(shorter, corners);
            assert forall|i: int| slot_by_len(sorted, corners) <= i < sorted.len() implies (
            #[trigger] sorted[i]).len() > corners by {
                if i < sorted.len() - 1 {
                    assert(shorter[i] == sorted[i]);
                }
            }
            assert forall|i: int| 0 <= i < slot_by_len(sorted, corners) implies (#[trigger] sorted[i]).len()
                <= corners by {
                assert(shorter[i] == sorted[i]);
            }
        }
    }
}

/// The sorted polygons are the polygons that were given, in the order of
/// their numbers of corners.
pub proof fn lemma_sorted_by_len(polys: Seq<Seq<Point>>)
    ensures
        by_corners(sorted_by_len(polys)),
        sorted_by_len(polys).to_multiset() =~= polys.to_multiset(),
        sorted_by_len(polys).len() == polys.len(),
    decreases polys.len(),
{
    broadcast use vstd::seq_lib::group_to_multiset_ensures;

    if polys.len() > 0 {
        let rest = sorted_by_len(polys.drop_last());
        let item = polys.last();
        lemma_sorted_by_len(polys.drop_last());
        lemma_slot_by_len(rest, item.len());
        let k = slot_by_len(rest, item.len());
        let grown = rest.insert(k, item);
        assert forall|i: int, j: int| 0 <= i < j < grown.len() implies (#[trigger] grown[i]).len() <= (
        #[trigger] grown[j]).len() by {
            let a = if i < k {
                rest[i]
            } else if i == k {
                item
            } else {
                rest[i - 1]
            };
            let b = if j < k {
                rest[j]
            } else if j == k {
                item
            } else {
                rest[j - 1]
            };
            assert(grown[i] == a && grown[j] == b);
            if j < k {
                assert(rest[i].len() <= rest[j].len());
            } else if j > k && i > k {
                assert(rest[i - 1].len() <= rest[j - 1].len());
            }
        }
        lemma_insert_to_multiset(rest, k, item);
        assert(polys =~= polys.drop_last().push(item));
        assert(polys.to_multiset() =~= polys.drop_last().to_multiset().insert(item));
    }
}

/// In a well-formed edge list, the twin of the twin of a half-edge is the
/// half-edge itself, and no half-edge is its own twin.
pub proof fn lemma_twin_of_twin(d: DCEL, e: int)
    requires
        d.wf(),
        0 <= e < d.halfedges@.len(),
    ensures
        d.halfedges@[e].twin < d.halfedges@.len(),
        d.halfedges@[d.halfedges@[e].twin as int].twin == e,
        d.halfedges@[e].twin != e,
{
    assert(twin_ok(d.halfedges@, e));
}

/// Where `next` and `prev` undo each other along the boundaries, a live
/// half-edge is the `prev` of its `next` and the `next` of its `prev`.
pub proof fn lemma_next_prev_inverse(d: DCEL, e: int)
    requires
        d.links_closed(),
        0 <= e < d.halfedges@.len(),
        d.halfedges@[e].alive,
    ensures
        d.halfedges@[e].next < d.halfedges@.len(),
        d.halfedges@[e].prev < d.halfedges@.len(),
        d.halfedges@[d.halfedges@[e].next as int].prev == e,
        d.halfedges@[d.halfedges@[e].prev as int].next == e,
{
    assert(closed_at(d.halfedges@, e));
}

/// Where the faces are closed, the walk along `next` from the half-edge
/// that a face names is back at that half-edge after at least one step and
/// at most as many steps as there are half-edges.
pub proof fn lemma_face_walk_returns(d: DCEL, f: int)
    requires
        d.faces_closed(),
        0 <= f < d.faces@.len(),
    ensures
        exists|k: nat|
            1 <= k <= d.halfedges@.len() && #[trigger] walk_next(
                d.halfedges@,
                d.faces@[f].outer_component,
                k,
            ) == d.faces@[f].outer_component,
{
    let start = d.faces@[f].outer_component;
    assert(d.faces@[f].alive);
    assert(cycle_closes(d.halfedges@, start));
    let k = choose|k: nat| k <= d.halfedges@.len() && #[trigger] cycle_of(d.halfedges@, start, k);
    assert(walk_next(d.halfedges@, start, k) == start);
}

} // verus!
