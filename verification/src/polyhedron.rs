use vstd::prelude::*;

use crate::facet::Facet;
use crate::halfedge::HalfEdge;
use crate::model::{
    edges_closed, has_loop, is_cycle, is_loop, lemma_cycle_is_loop, lemma_live_count_small,
    lemma_loop_unique, lemma_walk_add, live_count, next_index, walk, ELEM_LIMIT,
};
use crate::pos::{div_toward_zero, div_trunc, lemma_product_bounded, Pos2, COORD_LIMIT};
use crate::utils::{Handle, MeshError};
use crate::vertex::Vertex;

verus! {

/// The mesh container: the sole owner of every vertex, half-edge and facet.
///
/// Elements sit in arenas and name each other by slot index; a retired
/// element keeps its slot, marked dead, so every handle stays stable.  All
/// editing goes through the Euler operators, which keep `wf`.
pub struct Polyhedron2 {
    pub vertices: Vec<Vertex>,
    pub edges: Vec<HalfEdge>,
    pub facets: Vec<Facet>,
}

impl Polyhedron2 {
    /// Number of live vertices.
    pub open spec fn vertex_count(self) -> int {
        live_count(self.vertices@, self.vertices@.len() as int)
    }

    /// Number of live half-edges.
    pub open spec fn edge_count(self) -> int {
        live_count(self.edges@, self.edges@.len() as int)
    }

    /// Number of live facets.
    pub open spec fn facet_count(self) -> int {
        live_count(self.facets@, self.facets@.len() as int)
    }

    /// Twice the Euler characteristic of the counts: each undirected edge is
    /// two half-edges, so this is `2·V − E + 2·F` over live elements.
    pub open spec fn euler_characteristic_doubled(self) -> int {
        2 * self.vertex_count() - self.edge_count() + 2 * self.facet_count()
    }

    /// An absent or in-bounds vertex reference.
    pub open spec fn vertex_ref_ok(self, r: Option<Handle>) -> bool {
        r matches Some(h) ==> h.index < self.vertices.len()
    }

    /// An absent or in-bounds edge reference.
    pub open spec fn edge_ref_ok(self, r: Option<Handle>) -> bool {
        r matches Some(h) ==> h.index < self.edges.len()
    }

    /// An absent or in-bounds facet reference.
    pub open spec fn facet_ref_ok(self, r: Option<Handle>) -> bool {
        r matches Some(h) ==> h.index < self.facets.len()
    }

    /// A handle that names a live vertex.
    pub open spec fn valid_vertex(self, h: Handle) -> bool {
        h.index < self.vertices.len() && self.vertices@[h.index as int].live
    }

    /// A handle that names a live half-edge.
    pub open spec fn valid_edge(self, h: Handle) -> bool {
        h.index < self.edges.len() && self.edges@[h.index as int].live
    }

    /// A handle that names a live facet.
    pub open spec fn valid_facet(self, h: Handle) -> bool {
        h.index < self.facets.len() && self.facets@[h.index as int].live
    }

    /// A vertex whose references and position the container accepts.
    pub open spec fn vertex_ok(self, v: Vertex) -> bool {
        &&& self.edge_ref_ok(v.edge)
        &&& v.position.bounded()
    }

    /// A half-edge whose references the container accepts.
    pub open spec fn edge_ok(self, e: HalfEdge) -> bool {
        &&& self.vertex_ref_ok(e.vertex)
        &&& self.facet_ref_ok(e.face)
        &&& self.edge_ref_ok(e.opposite)
        &&& self.edge_ref_ok(e.next)
    }

    /// A facet whose boundary reference the container accepts.
    pub open spec fn facet_ok(self, f: Facet) -> bool {
        self.edge_ref_ok(f.edge)
    }

    /// Well-formedness of the container: arenas are bounded, every reference
    /// of every element stays inside the arenas, and every position is
    /// bounded.  Dead slots keep obeying this, so the invariant survives
    /// retirement without clearing references.
    pub open spec fn wf(self) -> bool {
        &&& self.vertices.len() <= ELEM_LIMIT
        &&& self.edges.len() <= ELEM_LIMIT
        &&& self.facets.len() <= ELEM_LIMIT
        &&& forall|i: int| 0 <= i < self.vertices.len() ==> self.vertex_ok(#[trigger] self.vertices@[i])
        &&& forall|i: int| 0 <= i < self.edges.len() ==> self.edge_ok(#[trigger] self.edges@[i])
        &&& forall|i: int| 0 <= i < self.facets.len() ==> self.facet_ok(#[trigger] self.facets@[i])
    }

    /// `wf` makes the edge arena closed in the sense of the walk model.
    pub proof fn lemma_wf_edges_closed(self)
        requires
            self.wf(),
        ensures
            edges_closed(self.edges@),
    {
        assert forall|i: int| 0 <= i < self.edges@.len() implies {
            &&& (#[trigger] self.edges@[i].next matches Some(h) ==> h.index < self.edges@.len())
            &&& (self.edges@[i].opposite matches Some(h) ==> h.index < self.edges@.len())
        } by {
            assert(self.edge_ok(self.edges@[i]));
        }
    }

    /// An empty mesh.
    pub fn new() -> (p: Polyhedron2)
        ensures
            p.wf(),
            p.vertices@.len() == 0,
            p.edges@.len() == 0,
            p.facets@.len() == 0,
            p.vertex_count() == 0,
            p.edge_count() == 0,
            p.facet_count() == 0,
    {
        Polyhedron2 { vertices: Vec::new(), edges: Vec::new(), facets: Vec::new() }
    }

    /// The origin position of the edge in slot `e`, if its vertex reference
    /// is present.
    pub open spec fn origin_position(self, e: int) -> Option<Pos2> {
        match self.edges@[e].vertex {
            Some(h) => Some(self.vertices@[h.index as int].position),
            None => None,
        }
    }

    /// The origin position `i` next-steps along the facet loop from `e`.
    pub open spec fn loop_origin(self, e: int, i: nat) -> Option<Pos2> {
        match walk(self.edges@, e, i) {
            Some(j) => self.origin_position(j),
            None => None,
        }
    }

    /// Each of the first `k` loop slots from `e` has an origin vertex.
    pub open spec fn origins_present(self, e: int, k: nat) -> bool {
        forall|i: nat| i < k ==> #[trigger] self.loop_origin(e, i) is Some
    }

    /// Sum of the x coordinates of the first `k` loop origins from `e`; an
    /// absent origin contributes nothing.
    pub open spec fn loop_sum_x(self, e: int, k: nat) -> int
        decreases k,
    {
        if k == 0 {
            0
        } else {
            self.loop_sum_x(e, (k - 1) as nat) + match self.loop_origin(e, (k - 1) as nat) {
                Some(p) => p.x as int,
                None => 0,
            }
        }
    }

    /// Sum of the y coordinates of the first `k` loop origins from `e`.
    pub open spec fn loop_sum_y(self, e: int, k: nat) -> int
        decreases k,
    {
        if k == 0 {
            0
        } else {
            self.loop_sum_y(e, (k - 1) as nat) + match self.loop_origin(e, (k - 1) as nat) {
                Some(p) => p.y as int,
                None => 0,
            }
        }
    }

    /// The shoelace sum over the first `k` consecutive origin pairs of the
    /// loop from `e`: `Σ (x_i·y_{i+1} − y_i·x_{i+1})`.  A pair with an absent
    /// origin contributes nothing.
    pub open spec fn shoelace_sum(self, e: int, k: nat) -> int
        decreases k,
    {
        if k == 0 {
            0
        } else {
            self.shoelace_sum(e, (k - 1) as nat) + match (
                self.loop_origin(e, (k - 1) as nat),
                self.loop_origin(e, k),
            ) {
                (Some(p), Some(q)) => p.x * q.y - p.y * q.x,
                _ => 0,
            }
        }
    }

    /// The loop from `e` closes and every slot on it has an origin vertex:
    /// the walks behind the centroid and the area are defined.
    pub open spec fn loop_resolved(self, e: int) -> bool {
        exists|d: int|
            1 <= d <= self.edges@.len() && #[trigger] is_loop(self.edges@, e, d)
                && self.origins_present(e, d as nat)
    }

    /// Degree of the facet loop through edge slot `start`, or
    /// `MissingAdjacency` when it does not close.
    pub(crate) fn loop_degree(&self, start: usize) -> (r: Result<usize, MeshError>)
        requires
            self.wf(),
            start < self.edges.len(),
        ensures
            match r {
                Ok(d) => is_loop(self.edges@, start as int, d as int) && 1 <= d
                    <= self.edges@.len(),
                Err(err) => err == MeshError::MissingAdjacency && !has_loop(
                    self.edges@,
                    start as int,
                ),
            },
    {
        let probe = Facet { edge: Some(Handle { index: start }), live: true };
        probe.degree(self)
    }

    /// Collects the slots of the facet loop through `start`, in walk order:
    /// entry `j` is the edge reached after `j` steps.
    #[verifier::loop_isolation(false)]
    pub(crate) fn loop_slots(&self, start: usize, d: usize) -> (r: Vec<usize>)
        requires
            self.wf(),
            start < self.edges.len(),
            is_loop(self.edges@, start as int, d as int),
        ensures
            r@.len() == d,
            forall|j: int|
                0 <= j < d ==> walk(self.edges@, start as int, j as nat) == Option::<int>::Some(
                    #[trigger] r@[j] as int,
                ),
            forall|j: int| 0 <= j < d ==> (#[trigger] r@[j]) < self.edges.len(),
    {
        proof {
            self.lemma_wf_edges_closed();
        }
        let mut r: Vec<usize> = Vec::new();
        let mut cur: usize = start;
        let mut j: usize = 0;
        while j < d
            invariant
                j <= d,
                r@.len() == j,
                cur < self.edges.len(),
                walk(self.edges@, start as int, j as nat) == Option::<int>::Some(cur as int),
                forall|t: int|
                    0 <= t < j ==> walk(self.edges@, start as int, t as nat)
                        == Option::<int>::Some(#[trigger] r@[t] as int),
                forall|t: int| 0 <= t < j ==> (#[trigger] r@[t]) < self.edges.len(),
            decreases d - j,
        {
            r.push(cur);
            proof {
                lemma_walk_add(self.edges@, start as int, (j + 1) as nat, (d - j - 1) as nat);
                assert(walk(self.edges@, start as int, d as nat) == Option::<int>::Some(
                    start as int,
                ));
                assert(walk(self.edges@, start as int, (j + 1) as nat) is Some);
                assert(self.edges@[cur as int].next is Some);
            }
            let nxt: usize = self.edges[cur].next.unwrap().index;
            proof {
                assert(walk(self.edges@, start as int, (j + 1) as nat) == Option::<int>::Some(
                    nxt as int,
                ));
            }
            cur = nxt;
            j = j + 1;
        }
        r
    }

    /// The arithmetic mean of the origin positions around the facet loop
    /// through `edge`, each coordinate rounded toward zero.  Fails with
    /// `MissingAdjacency` when the loop does not close or an origin vertex is
    /// absent along it.
    #[verifier::loop_isolation(false)]
    pub fn get_center_position(&self, edge: Handle) -> (r: Result<Pos2, MeshError>)
        requires
            self.wf(),
            edge.index < self.edges.len(),
        ensures
            r is Ok <==> self.loop_resolved(edge.index as int),
            r matches Err(err) ==> err == MeshError::MissingAdjacency,
            r matches Ok(c) ==> forall|d: int|
                #[trigger] is_loop(self.edges@, edge.index as int, d) ==> {
                    &&& c.x == div_trunc(self.loop_sum_x(edge.index as int, d as nat), d)
                    &&& c.y == div_trunc(self.loop_sum_y(edge.index as int, d as nat), d)
                    &&& c.bounded()
                },
    {
        let e0: usize = edge.index;
        proof {
            self.lemma_wf_edges_closed();
        }
        let d: usize = match self.loop_degree(e0) {
            Ok(d) => d,
            Err(err) => {
                return Err(err);
            },
        };
        let mut sum_x: i64 = 0;
        let mut sum_y: i64 = 0;
        let mut cur: usize = e0;
        let mut i: usize = 0;
        while i < d
            invariant
                i <= d,
                cur < self.edges.len(),
                walk(self.edges@, e0 as int, i as nat) == Option::<int>::Some(cur as int),
                self.origins_present(e0 as int, i as nat),
                sum_x == self.loop_sum_x(e0 as int, i as nat),
                sum_y == self.loop_sum_y(e0 as int, i as nat),
                -(i as int * COORD_LIMIT) <= sum_x <= i as int * COORD_LIMIT,
                -(i as int * COORD_LIMIT) <= sum_y <= i as int * COORD_LIMIT,
            decreases d - i,
        {
            let v: Handle = match self.edges[cur].vertex {
                None => {
                    proof {
                        assert(self.loop_origin(e0 as int, i as nat) is None);
                        assert forall|dd: int|
                            1 <= dd <= self.edges@.len() && #[trigger] is_loop(
                                self.edges@,
                                e0 as int,
                                dd,
                            ) implies !self.origins_present(e0 as int, dd as nat) by {
                            lemma_loop_unique(self.edges@, e0 as int, dd, d as int);
                        }
                        assert(!self.loop_resolved(e0 as int));
                    }
                    return Err(MeshError::MissingAdjacency);
                },
                Some(h) => h,
            };
            let pos = self.vertices[v.index].position;
            proof {
                assert(self.loop_origin(e0 as int, i as nat) == Some(pos));
                assert(self.loop_sum_x(e0 as int, (i + 1) as nat) == sum_x + pos.x);
                assert(self.loop_sum_y(e0 as int, (i + 1) as nat) == sum_y + pos.y);
                lemma_walk_add(self.edges@, e0 as int, (i + 1) as nat, (d - i - 1) as nat);
            }
            sum_x = sum_x + pos.x;
            sum_y = sum_y + pos.y;
            let nh: Handle = self.edges[cur].next.unwrap();
            cur = nh.index;
            i = i + 1;
        }
        let cx: i64 = div_toward_zero(sum_x, d as i64);
        let cy: i64 = div_toward_zero(sum_y, d as i64);
        proof {
            crate::pos::lemma_div_trunc_mean_bounded(sum_x as int, d as int, COORD_LIMIT as int);
            crate::pos::lemma_div_trunc_mean_bounded(sum_y as int, d as int, COORD_LIMIT as int);
            assert(self.loop_resolved(e0 as int));
            assert forall|dd: int| #[trigger] is_loop(self.edges@, e0 as int, dd) implies dd
                == d as int by {
                lemma_loop_unique(self.edges@, e0 as int, dd, d as int);
            }
        }
        Ok(Pos2 { x: cx, y: cy })
    }

    /// Half the absolute value of the shoelace sum over all `d` cyclic
    /// origin pairs of the facet loop through `edge`, the closing pair
    /// included, rounded down.  A loop of degree `d` has `loop_origin` wrap
    /// at step `d`, so `shoelace_sum` taken to `d` is exactly the cyclic
    /// sum.  Fails with `MissingAdjacency` when the loop does not close or
    /// an origin vertex is absent along it.
    #[verifier::loop_isolation(false)]
    pub fn get_area(&self, edge: Handle) -> (r: Result<i64, MeshError>)
        requires
            self.wf(),
            edge.index < self.edges.len(),
        ensures
            r is Ok <==> self.loop_resolved(edge.index as int),
            r matches Err(err) ==> err == MeshError::MissingAdjacency,
            r matches Ok(a) ==> a >= 0 && forall|d: int|
                #[trigger] is_loop(self.edges@, edge.index as int, d) ==> {
                    let s = self.shoelace_sum(edge.index as int, d as nat);
                    a == (if s >= 0 {
                        s
                    } else {
                        -s
                    }) / 2
                },
    {
        let e0: usize = edge.index;
        proof {
            self.lemma_wf_edges_closed();
        }
        let d: usize = match self.loop_degree(e0) {
            Ok(d) => d,
            Err(err) => {
                return Err(err);
            },
        };
        let mut acc: i64 = 0;
        let mut prev_pos = Pos2 { x: 0, y: 0 };
        let mut first_pos = Pos2 { x: 0, y: 0 };
        let mut cur: usize = e0;
        let mut i: usize = 0;
        while i < d
            invariant
                i <= d,
                cur < self.edges.len(),
                walk(self.edges@, e0 as int, i as nat) == Option::<int>::Some(cur as int),
                self.origins_present(e0 as int, i as nat),
                i > 0 ==> Some(prev_pos) == self.loop_origin(e0 as int, (i - 1) as nat),
                i > 0 ==> prev_pos.bounded(),
                i > 0 ==> Some(first_pos) == self.loop_origin(e0 as int, 0),
                i > 0 ==> first_pos.bounded(),
                i > 0 ==> acc == self.shoelace_sum(e0 as int, (i - 1) as nat),
                i == 0 ==> acc == 0,
                -(i as int * 0x200_0000_0000) <= acc <= i as int * 0x200_0000_0000,
            decreases d - i,
        {
            let v: Handle = match self.edges[cur].vertex {
                None => {
                    proof {
                        assert(self.loop_origin(e0 as int, i as nat) is None);
                        assert forall|dd: int|
                            1 <= dd <= self.edges@.len() && #[trigger] is_loop(
                                self.edges@,
                                e0 as int,
                                dd,
                            ) implies !self.origins_present(e0 as int, dd as nat) by {
                            lemma_loop_unique(self.edges@, e0 as int, dd, d as int);
                        }
                        assert(!self.loop_resolved(e0 as int));
                    }
                    return Err(MeshError::MissingAdjacency);
                },
                Some(h) => h,
            };
            let pos = self.vertices[v.index].position;
            proof {
                assert(self.loop_origin(e0 as int, i as nat) == Some(pos));
                lemma_walk_add(self.edges@, e0 as int, (i + 1) as nat, (d - i - 1) as nat);
            }
            if i > 0 {
                proof {
                    lemma_product_bounded(prev_pos.x as int, pos.y as int);
                    lemma_product_bounded(prev_pos.y as int, pos.x as int);
                    assert(self.shoelace_sum(e0 as int, i as nat) == acc + (prev_pos.x * pos.y
                        - prev_pos.y * pos.x));
                }
                acc = acc + (prev_pos.x * pos.y - prev_pos.y * pos.x);
            }
            if i == 0 {
                first_pos = pos;
            }
            prev_pos = pos;
            let nh: Handle = self.edges[cur].next.unwrap();
            cur = nh.index;
            i = i + 1;
        }
        proof {
            assert(walk(self.edges@, e0 as int, d as nat) == Option::<int>::Some(e0 as int));
            assert(self.loop_origin(e0 as int, d as nat) == self.loop_origin(e0 as int, 0));
            lemma_product_bounded(prev_pos.x as int, first_pos.y as int);
            lemma_product_bounded(prev_pos.y as int, first_pos.x as int);
            assert(self.shoelace_sum(e0 as int, d as nat) == acc + (prev_pos.x * first_pos.y
                - prev_pos.y * first_pos.x));
        }
        acc = acc + (prev_pos.x * first_pos.y - prev_pos.y * first_pos.x);
        let mag: i64 = if acc >= 0 {
            acc
        } else {
            -acc
        };
        let half: i64 = ((mag as u64) / 2u64) as i64;
        proof {
            assert(self.loop_resolved(e0 as int));
            assert forall|dd: int| #[trigger] is_loop(self.edges@, e0 as int, dd) implies dd
                == d as int by {
                lemma_loop_unique(self.edges@, e0 as int, dd, d as int);
            }
        }
        Ok(half)
    }

    /// The predecessor of `edge` on its facet loop: the edge whose `next` is
    /// `edge`, found by walking the loop once around; an edge on a loop of
    /// degree one is its own predecessor.  Fails with `MissingAdjacency`
    /// when the loop does not close.
    #[verifier::loop_isolation(false)]
    pub fn get_prev_edge(&self, edge: Handle) -> (r: Result<Handle, MeshError>)
        requires
            self.wf(),
            edge.index < self.edges.len(),
        ensures
            r is Ok <==> has_loop(self.edges@, edge.index as int),
            r matches Err(err) ==> err == MeshError::MissingAdjacency,
            r matches Ok(h) ==> {
                &&& h.index < self.edges.len()
                &&& next_index(self.edges@, h.index as int) == Option::<int>::Some(
                    edge.index as int,
                )
                &&& forall|d: int|
                    #[trigger] is_loop(self.edges@, edge.index as int, d) ==> walk(
                        self.edges@,
                        edge.index as int,
                        (d - 1) as nat,
                    ) == Option::<int>::Some(h.index as int)
            },
    {
        let e0: usize = edge.index;
        proof {
            self.lemma_wf_edges_closed();
        }
        let d: usize = match self.loop_degree(e0) {
            Ok(d) => d,
            Err(err) => {
                return Err(err);
            },
        };
        let mut cur: usize = e0;
        let mut i: usize = 0;
        while i < d - 1
            invariant
                i <= d - 1,
                cur < self.edges.len(),
                walk(self.edges@, e0 as int, i as nat) == Option::<int>::Some(cur as int),
            decreases d - i,
        {
            proof {
                lemma_walk_add(self.edges@, e0 as int, (i + 1) as nat, (d - i - 1) as nat);
            }
            let nh: Handle = self.edges[cur].next.unwrap();
            cur = nh.index;
            i = i + 1;
        }
        proof {
            assert(walk(self.edges@, e0 as int, d as nat) == Option::<int>::Some(e0 as int));
            assert(next_index(self.edges@, cur as int) == Option::<int>::Some(e0 as int));
            assert forall|dd: int| #[trigger] is_loop(self.edges@, e0 as int, dd) implies dd
                == d as int by {
                lemma_loop_unique(self.edges@, e0 as int, dd, d as int);
            }
        }
        Ok(Handle { index: cur })
    }

    /// A canonical triangle with corners (0,0), (0,200) and (200,0): one
    /// facet whose three boundary edges form a cycle.  No edge has a twin.
    pub fn create_triangle() -> (p: Polyhedron2)
        ensures
            p.wf(),
            p.vertices@.len() == 3 && p.edges@.len() == 3 && p.facets@.len() == 1,
            p.vertex_count() == 3 && p.edge_count() == 3 && p.facet_count() == 1,
            p.vertices@[0] == (Vertex {
                position: Pos2 { x: 0, y: 0 },
                edge: Some(Handle { index: 0 }),
                live: true,
            }),
            p.vertices@[1] == (Vertex {
                position: Pos2 { x: 0, y: 200 },
                edge: Some(Handle { index: 1 }),
                live: true,
            }),
            p.vertices@[2] == (Vertex {
                position: Pos2 { x: 200, y: 0 },
                edge: Some(Handle { index: 2 }),
                live: true,
            }),
            forall|i: int|
                0 <= i < 3 ==> #[trigger] p.edges@[i] == (HalfEdge {
                    vertex: Some(Handle { index: i as usize }),
                    face: Some(Handle { index: 0 }),
                    opposite: None,
                    next: Some(Handle { index: if i + 1 < 3 { (i + 1) as usize } else { 0 } }),
                    live: true,
                }),
            p.facets@[0] == (Facet { edge: Some(Handle { index: 0 }), live: true }),
            forall|j: int| 0 <= j < 3 ==> is_loop(p.edges@, j, 3),
    {
        let mut positions: Vec<Pos2> = Vec::new();
        positions.push(Pos2 { x: 0, y: 0 });
        positions.push(Pos2 { x: 0, y: 200 });
        positions.push(Pos2 { x: 200, y: 0 });
        Polyhedron2::create_polygon(&positions)
    }

    /// An axis-aligned rectangle: one facet of four boundary edges running
    /// from `(corner_x, corner_y)` up by `height`, across by `width` and
    /// back.  No edge has a twin.
    pub fn create_rectangle(corner_x: i64, corner_y: i64, height: i64, width: i64) -> (p:
        Polyhedron2)
        requires
            -COORD_LIMIT <= corner_x <= COORD_LIMIT,
            -COORD_LIMIT <= corner_y <= COORD_LIMIT,
            -COORD_LIMIT <= corner_x + width <= COORD_LIMIT,
            -COORD_LIMIT <= corner_y + height <= COORD_LIMIT,
        ensures
            p.wf(),
            p.vertices@.len() == 4 && p.edges@.len() == 4 && p.facets@.len() == 1,
            p.vertex_count() == 4 && p.edge_count() == 4 && p.facet_count() == 1,
            p.vertices@[0].position.x == corner_x && p.vertices@[0].position.y == corner_y,
            p.vertices@[1].position.x == corner_x && p.vertices@[1].position.y == corner_y
                + height,
            p.vertices@[2].position.x == corner_x + width && p.vertices@[2].position.y == corner_y
                + height,
            p.vertices@[3].position.x == corner_x + width && p.vertices@[3].position.y == corner_y,
            forall|i: int|
                0 <= i < 4 ==> (#[trigger] p.vertices@[i]).edge == Some(
                    Handle { index: i as usize },
                ) && p.vertices@[i].live,
            forall|i: int|
                0 <= i < 4 ==> #[trigger] p.edges@[i] == (HalfEdge {
                    vertex: Some(Handle { index: i as usize }),
                    face: Some(Handle { index: 0 }),
                    opposite: None,
                    next: Some(Handle { index: if i + 1 < 4 { (i + 1) as usize } else { 0 } }),
                    live: true,
                }),
            p.facets@[0] == (Facet { edge: Some(Handle { index: 0 }), live: true }),
            forall|j: int| 0 <= j < 4 ==> is_loop(p.edges@, j, 4),
    {
        let mut positions: Vec<Pos2> = Vec::new();
        positions.push(Pos2 { x: corner_x, y: corner_y });
        positions.push(Pos2 { x: corner_x, y: corner_y + height });
        positions.push(Pos2 { x: corner_x + width, y: corner_y + height });
        positions.push(Pos2 { x: corner_x + width, y: corner_y });
        Polyhedron2::create_polygon(&positions)
    }

    /// A single facet whose boundary runs through the given positions in
    /// order: vertex, edge and position `i` correspond, and edge `i` leads to
    /// edge `i + 1`, the last back to edge 0.  No edge has a twin.
    #[verifier::loop_isolation(false)]
    pub fn create_polygon(positions: &Vec<Pos2>) -> (p: Polyhedron2)
        requires
            1 <= positions@.len() <= ELEM_LIMIT,
            forall|i: int| 0 <= i < positions@.len() ==> (#[trigger] positions@[i]).bounded(),
        ensures
            p.wf(),
            p.vertices@.len() == positions@.len(),
            p.edges@.len() == positions@.len(),
            p.facets@.len() == 1,
            p.vertex_count() == positions@.len(),
            p.edge_count() == positions@.len(),
            p.facet_count() == 1,
            forall|i: int|
                0 <= i < positions@.len() ==> #[trigger] p.vertices@[i] == (Vertex {
                    position: positions@[i],
                    edge: Some(Handle { index: i as usize }),
                    live: true,
                }),
            forall|i: int|
                0 <= i < positions@.len() ==> #[trigger] p.edges@[i] == (HalfEdge {
                    vertex: Some(Handle { index: i as usize }),
                    face: Some(Handle { index: 0 }),
                    opposite: None,
                    next: Some(
                        Handle {
                            index: if i + 1 < positions@.len() {
                                (i + 1) as usize
                            } else {
                                0
                            },
                        },
                    ),
                    live: true,
                }),
            p.facets@[0] == (Facet { edge: Some(Handle { index: 0 }), live: true }),
            forall|j: int| 0 <= j < positions@.len() ==> is_loop(p.edges@, j, positions@.len() as int),
    {
        let n: usize = positions.len();
        let mut vertices: Vec<Vertex> = Vec::new();
        let mut edges: Vec<HalfEdge> = Vec::new();
        let mut facets: Vec<Facet> = Vec::new();
        let mut i: usize = 0;
        while i < n
            invariant
                i <= n,
                vertices@.len() == i,
                edges@.len() == i,
                forall|j: int|
                    0 <= j < i ==> #[trigger] vertices@[j] == (Vertex {
                        position: positions@[j],
                        edge: Some(Handle { index: j as usize }),
                        live: true,
                    }),
                forall|j: int|
                    0 <= j < i ==> #[trigger] edges@[j] == (HalfEdge {
                        vertex: Some(Handle { index: j as usize }),
                        face: Some(Handle { index: 0 }),
                        opposite: None,
                        next: Some(
                            Handle {
                                index: if j + 1 < n as int {
                                    (j + 1) as usize
                                } else {
                                    0
                                },
                            },
                        ),
                        live: true,
                    }),
            decreases n - i,
        {
            vertices.push(Vertex { position: positions[i], edge: Some(Handle { index: i }), live: true });
            let nxt: usize = if i + 1 < n {
                i + 1
            } else {
                0
            };
            edges.push(
                HalfEdge {
                    vertex: Some(Handle { index: i }),
                    face: Some(Handle { index: 0 }),
                    opposite: None,
                    next: Some(Handle { index: nxt }),
                    live: true,
                },
            );
            i = i + 1;
        }
        facets.push(Facet { edge: Some(Handle { index: 0 }), live: true });
        let p = Polyhedron2 { vertices, edges, facets };
        proof {
            lemma_live_count_small(p.vertices@, n as int);
            lemma_live_count_small(p.edges@, n as int);
            lemma_live_count_small(p.facets@, 1);
            assert(is_cycle(p.edges@, n as int)) by {
                assert forall|j: int| 0 <= j < n implies #[trigger] next_index(p.edges@, j)
                    == Option::<int>::Some(
                    if j + 1 < n {
                        j + 1
                    } else {
                        0
                    },
                ) by {
                    assert(p.edges@[j].next is Some);
                }
            }
            assert forall|j: int| 0 <= j < n implies is_loop(p.edges@, j, n as int) by {
                lemma_cycle_is_loop(p.edges@, n as int, j);
            }
        }
        p
    }

    /// Number of live vertices.
    pub fn vertices_size(&self) -> (n: usize)
        ensures
            n == self.vertex_count(),
    {
        let mut n: usize = 0;
        let mut i: usize = 0;
        while i < self.vertices.len()
            invariant
                i <= self.vertices.len(),
                n <= i,
                n == live_count(self.vertices@, i as int),
            decreases self.vertices.len() - i,
        {
            if self.vertices[i].live {
                n = n + 1;
            }
            i = i + 1;
        }
        n
    }

    /// Number of live half-edges.
    pub fn edges_size(&self) -> (n: usize)
        ensures
            n == self.edge_count(),
    {
        let mut n: usize = 0;
        let mut i: usize = 0;
        while i < self.edges.len()
            invariant
                i <= self.edges.len(),
                n <= i,
                n == live_count(self.edges@, i as int),
            decreases self.edges.len() - i,
        {
            if self.edges[i].live {
                n = n + 1;
            }
            i = i + 1;
        }
        n
    }

    /// Number of live facets.
    pub fn facets_size(&self) -> (n: usize)
        ensures
            n == self.facet_count(),
    {
        let mut n: usize = 0;
        let mut i: usize = 0;
        while i < self.facets.len()
            invariant
                i <= self.facets.len(),
                n <= i,
                n == live_count(self.facets@, i as int),
            decreases self.facets.len() - i,
        {
            if self.facets[i].live {
                n = n + 1;
            }
            i = i + 1;
        }
        n
    }
}

} // verus!
