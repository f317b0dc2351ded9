use vstd::prelude::*;

use crate::facet::Facet;
use crate::halfedge::HalfEdge;
use crate::model::{
    fan_at, fan_index, fan_walk, has_fan_loop, has_fan_path, has_loop, is_fan_loop, is_fan_path,
    is_loop, lemma_fan_loop_unique, lemma_walk_none_persists,
    lemma_fan_path_distinct, lemma_fan_walk_none_persists, lemma_live_count_agree,
    lemma_live_count_push, lemma_live_count_update, lemma_loop_distinct, lemma_loop_unique,
    lemma_walk_add, lemma_walk_in_bounds, live_count, next_index, on_loop, ref_index, some_handle,
    walk, walk_at, Alive, ELEM_LIMIT,
};
use crate::polyhedron::Polyhedron2;
use crate::pos::{div_trunc, Pos2};
use crate::utils::{slot_listed, Handle, MeshError};
use crate::vertex::Vertex;

verus! {

/// `flip_edge` resolves on `e`: the edge, its twin and their facets and
/// origins are present, both facet loops are triangles, and the two new
/// diagonal origins resolve.
pub open spec fn flip_applicable(pre: Polyhedron2, e: int) -> bool {
    let es = pre.edges@;
    let o = ref_index(es[e].opposite);
    &&& es[e].face is Some
    &&& es[e].vertex is Some
    &&& es[e].opposite is Some
    &&& es[o].face is Some
    &&& es[o].vertex is Some
    &&& has_loop(es, e) && is_loop(es, e, 3)
    &&& has_loop(es, o) && is_loop(es, o, 3)
    &&& es[ref_index(es[e].next)].vertex is Some
    &&& es[ref_index(es[o].next)].vertex is Some
}

/// The edge rewiring of `join_vertex`, where `de` and `do_` are the two
/// facet degrees and `k` the fan distance from the twin to the predecessor
/// of `e`: every fan slot between them and the predecessor itself are
/// re-aimed at the kept origin, the two predecessors are spliced past the
/// removed pair, and no other edge field changes.
pub open spec fn join_vertex_rewired(
    pre: Polyhedron2,
    post: Polyhedron2,
    e: int,
    de: int,
    do_: int,
    k: int,
) -> bool {
    let es = pre.edges@;
    let o = ref_index(es[e].opposite);
    let v = ref_index(es[e].vertex);
    let pe = walk_at(es, e, de - 1);
    let po = walk_at(es, o, do_ - 1);
    &&& forall|t: int|
        0 <= t < k ==> post.edges@[#[trigger] fan_at(es, o, t)].vertex == some_handle(v)
    &&& post.edges@[pe].vertex == some_handle(v)
    &&& post.edges@[pe].next == (if po == pe {
        es[o].next
    } else {
        es[e].next
    })
    &&& post.edges@[po].next == es[o].next
    &&& forall|i: int|
        0 <= i < es.len() && i != pe && !(exists|t: int|
            0 <= t < k && #[trigger] fan_at(es, o, t) == i) ==> (#[trigger] post.edges@[i]).vertex
            == es[i].vertex
    &&& forall|i: int|
        0 <= i < es.len() && i != pe && i != po ==> (#[trigger] post.edges@[i]).next == es[i].next
    &&& forall|i: int|
        0 <= i < es.len() ==> (#[trigger] post.edges@[i]).face == es[i].face && post.edges@[i].opposite
            == es[i].opposite
}

/// The edge arena after flipping the diagonal `e`, as the sequence of
/// in-place updates the operator performs: the diagonal pair is re-aimed at
/// the two apex origins, and the four outer edges are restitched across the
/// two triangles.
pub open spec fn flip_edges_after(pre: Polyhedron2, e: int) -> Seq<HalfEdge> {
    let es0 = pre.edges@;
    let o = ref_index(es0[e].opposite);
    let ne = ref_index(es0[e].next);
    let pe = ref_index(es0[ne].next);
    let no = ref_index(es0[o].next);
    let po = ref_index(es0[no].next);
    let f = es0[e].face;
    let of = es0[o].face;
    let vne = es0[ne].vertex;
    let vno = es0[no].vertex;
    let es1 = es0.update(
        e,
        HalfEdge {
            vertex: vne,
            next: some_handle(pe),
            face: es0[e].face,
            opposite: es0[e].opposite,
            live: es0[e].live,
        },
    );
    let es2 = es1.update(
        o,
        HalfEdge {
            vertex: vno,
            next: some_handle(po),
            face: es1[o].face,
            opposite: es1[o].opposite,
            live: es1[o].live,
        },
    );
    let es3 = es2.update(
        ne,
        HalfEdge {
            vertex: es2[ne].vertex,
            next: some_handle(o),
            face: of,
            opposite: es2[ne].opposite,
            live: es2[ne].live,
        },
    );
    let es4 = es3.update(
        no,
        HalfEdge {
            vertex: es3[no].vertex,
            next: some_handle(e),
            face: f,
            opposite: es3[no].opposite,
            live: es3[no].live,
        },
    );
    let es5 = es4.update(
        pe,
        HalfEdge {
            vertex: es4[pe].vertex,
            next: some_handle(no),
            face: es4[pe].face,
            opposite: es4[pe].opposite,
            live: es4[pe].live,
        },
    );
    es5.update(
        po,
        HalfEdge {
            vertex: es5[po].vertex,
            next: some_handle(ne),
            face: es5[po].face,
            opposite: es5[po].opposite,
            live: es5[po].live,
        },
    )
}

/// The facet arena after flipping `e`: each triangle's boundary reference is
/// reset to its diagonal half-edge.
pub open spec fn flip_facets_after(pre: Polyhedron2, e: int) -> Seq<Facet> {
    let es0 = pre.edges@;
    let o = ref_index(es0[e].opposite);
    let f = ref_index(es0[e].face);
    let of = ref_index(es0[o].face);
    let fs1 = pre.facets@.update(f, Facet { edge: some_handle(e), live: pre.facets@[f].live });
    fs1.update(of, Facet { edge: some_handle(o), live: fs1[of].live })
}

/// The vertex arena after flipping `e`: the two origins the diagonal leaves
/// are re-anchored on outer edges that still leave them.
pub open spec fn flip_vertices_after(pre: Polyhedron2, e: int) -> Seq<Vertex> {
    let es0 = pre.edges@;
    let o = ref_index(es0[e].opposite);
    let ne = ref_index(es0[e].next);
    let pe = ref_index(es0[ne].next);
    let no = ref_index(es0[o].next);
    let po = ref_index(es0[no].next);
    let v = ref_index(es0[e].vertex);
    let ov = ref_index(es0[o].vertex);
    let vs1 = pre.vertices@.update(
        v,
        Vertex {
            position: pre.vertices@[v].position,
            edge: some_handle(po),
            live: pre.vertices@[v].live,
        },
    );
    vs1.update(
        ov,
        Vertex { position: vs1[ov].position, edge: some_handle(pe), live: vs1[ov].live },
    )
}

/// `split_facet` resolves on `e1` and `e2`: both bound the same present
/// facet, both origins resolve, and `e2` lies strictly inside the closed
/// facet loop of `e1`.
pub open spec fn split_facet_applicable(pre: Polyhedron2, e1: int, e2: int) -> bool {
    let es = pre.edges@;
    &&& es[e1].face is Some
    &&& es[e2].face is Some
    &&& es[e1].face == es[e2].face
    &&& es[e1].vertex is Some
    &&& es[e2].vertex is Some
    &&& has_loop(es, e1)
    &&& exists|d: int, k: nat|
        #![trigger is_loop(es, e1, d), walk(es, e1, k)]
        {
            &&& 1 <= k < d
            &&& is_loop(es, e1, d)
            &&& walk(es, e1, k) == Option::<int>::Some(e2)
        }
}

/// The mesh after splitting the facet of `e1` along a new diagonal to the
/// destination of `e2`, where `d` is the old facet degree and `k` the
/// position of `e2` on the old loop of `e1`.  The diagonal pair sits in the
/// two new edge slots; the old facet keeps the loop segment after `e2`, and
/// the new facet, in the new facet slot, takes the segment up to `e2`.
pub open spec fn split_facet_shape(
    pre: Polyhedron2,
    post: Polyhedron2,
    e1: int,
    e2: int,
    d: int,
    k: int,
) -> bool {
    let es = pre.edges@;
    let n = es.len() as int;
    let f2 = pre.facets@.len() as int;
    let f1 = ref_index(es[e1].face);
    &&& post.vertices@ == pre.vertices@
    &&& post.edges@.len() == n + 2
    &&& post.facets@.len() == f2 + 1
    &&& post.edges@[n] == (HalfEdge {
        vertex: es[e2].vertex,
        face: es[e1].face,
        opposite: some_handle(n + 1),
        next: es[e2].next,
        live: true,
    })
    &&& post.edges@[n + 1] == (HalfEdge {
        vertex: es[e1].vertex,
        face: some_handle(f2),
        opposite: some_handle(n),
        next: es[e1].next,
        live: true,
    })
    &&& post.edges@[e1] == (HalfEdge {
        vertex: es[e1].vertex,
        face: es[e1].face,
        opposite: es[e1].opposite,
        next: some_handle(n),
        live: es[e1].live,
    })
    &&& post.edges@[e2] == (HalfEdge {
        vertex: es[e2].vertex,
        face: some_handle(f2),
        opposite: es[e2].opposite,
        next: some_handle(n + 1),
        live: es[e2].live,
    })
    &&& forall|j: int|
        1 <= j < k ==> post.edges@[#[trigger] walk_at(es, e1, j)] == (HalfEdge {
            vertex: es[walk_at(es, e1, j)].vertex,
            face: some_handle(f2),
            opposite: es[walk_at(es, e1, j)].opposite,
            next: es[walk_at(es, e1, j)].next,
            live: es[walk_at(es, e1, j)].live,
        })
    &&& forall|j: int|
        k < j < d ==> post.edges@[#[trigger] walk_at(es, e1, j)] == (HalfEdge {
            vertex: es[walk_at(es, e1, j)].vertex,
            face: es[e1].face,
            opposite: es[walk_at(es, e1, j)].opposite,
            next: es[walk_at(es, e1, j)].next,
            live: es[walk_at(es, e1, j)].live,
        })
    &&& forall|i: int|
        0 <= i < n && !on_loop(es, e1, d, i) ==> post.edges@[i] == #[trigger] es[i]
    &&& post.facets@[f1] == (Facet { edge: some_handle(e1), live: pre.facets@[f1].live })
    &&& post.facets@[f2] == (Facet { edge: some_handle(e2), live: true })
    &&& forall|i: int| 0 <= i < f2 && i != f1 ==> post.facets@[i] == #[trigger] pre.facets@[i]
}

/// `join_facet` resolves on `e`: the edge, its twin and both facets are
/// present, both facet loops close and share no slot, and the twin pair and
/// the twin's facet are still owned by the container.
pub open spec fn join_facet_applicable(pre: Polyhedron2, e: int) -> bool {
    let es = pre.edges@;
    let o = ref_index(es[e].opposite);
    let of = ref_index(es[o].face);
    &&& es[e].face is Some
    &&& es[e].opposite is Some
    &&& es[o].face is Some
    &&& has_loop(es, e)
    &&& has_loop(es, o)
    &&& o != e
    &&& loops_disjoint(es, e, o)
    &&& es[o].live
    &&& 0 <= of < pre.facets@.len() && pre.facets@[of].live
}

/// The facet loops through `e1` and `e2` share no slot.
pub open spec fn loops_disjoint(es: Seq<HalfEdge>, e1: int, e2: int) -> bool {
    exists|d1: int, d2: int|
        #![trigger is_loop(es, e1, d1), is_loop(es, e2, d2)]
        {
            &&& is_loop(es, e1, d1)
            &&& is_loop(es, e2, d2)
            &&& forall|i: nat, j: nat|
                #![trigger walk(es, e1, i), walk(es, e2, j)]
                i < d1 && j < d2 ==> walk(es, e1, i) != walk(es, e2, j)
        }
}

/// The mesh after merging the facet of the twin of `e` into the facet of
/// `e`, where `de` and `do_` are the two facet degrees.  The twin's whole
/// loop is relabelled to the kept facet, the two predecessors are spliced
/// across the removed pair, and the pair and the twin's facet are retired in
/// place.  A kept facet whose stored boundary edge is one of the removed
/// pair is re-anchored on the merged loop, on the successor of `e` where
/// `e`'s loop had more than the removed edge, else on the twin's successor,
/// else cleared.
pub open spec fn join_facet_shape(
    pre: Polyhedron2,
    post: Polyhedron2,
    e: int,
    de: int,
    do_: int,
) -> bool {
    let es = pre.edges@;
    let o = ref_index(es[e].opposite);
    let of = ref_index(es[o].face);
    let fh = es[e].face;
    let pe = walk_at(es, e, de - 1);
    let po = walk_at(es, o, do_ - 1);
    let spliced_e_next = if de == 1 {
        es[o].next
    } else {
        es[e].next
    };
    &&& post.vertices@ == pre.vertices@
    &&& post.edges@.len() == es.len()
    &&& post.facets@.len() == pre.facets@.len()
    &&& post.edges@[e] == (HalfEdge {
        vertex: es[e].vertex,
        face: es[e].face,
        opposite: es[e].opposite,
        next: if de == 1 {
            es[o].next
        } else {
            es[e].next
        },
        live: false,
    })
    &&& post.edges@[o] == (HalfEdge {
        vertex: es[o].vertex,
        face: fh,
        opposite: es[o].opposite,
        next: if do_ == 1 {
            spliced_e_next
        } else {
            es[o].next
        },
        live: false,
    })
    &&& de > 1 ==> post.edges@[pe] == (HalfEdge {
        vertex: es[pe].vertex,
        face: es[pe].face,
        opposite: es[pe].opposite,
        next: es[o].next,
        live: es[pe].live,
    })
    &&& do_ > 1 ==> post.edges@[po] == (HalfEdge {
        vertex: es[po].vertex,
        face: fh,
        opposite: es[po].opposite,
        next: spliced_e_next,
        live: es[po].live,
    })
    &&& forall|j: int|
        1 <= j < do_ - 1 ==> post.edges@[#[trigger] walk_at(es, o, j)] == (HalfEdge {
            vertex: es[walk_at(es, o, j)].vertex,
            face: fh,
            opposite: es[walk_at(es, o, j)].opposite,
            next: es[walk_at(es, o, j)].next,
            live: es[walk_at(es, o, j)].live,
        })
    &&& forall|i: int|
        0 <= i < es.len() && i != e && i != pe && !on_loop(es, o, do_, i) ==> post.edges@[i]
            == #[trigger] es[i]
    &&& post.facets@[of] == (Facet { edge: pre.facets@[of].edge, live: false })
    &&& {
        let fi = ref_index(fh);
        fi != of ==> post.facets@[fi] == (Facet {
            edge: if pre.facets@[fi].edge == some_handle(e) || pre.facets@[fi].edge
                == some_handle(o) {
                if de > 1 {
                    es[e].next
                } else if do_ > 1 {
                    es[o].next
                } else {
                    None
                }
            } else {
                pre.facets@[fi].edge
            },
            live: pre.facets@[fi].live,
        })
    }
    &&& forall|i: int|
        0 <= i < pre.facets@.len() && i != of && i != ref_index(fh) ==> post.facets@[i]
            == #[trigger] pre.facets@[i]
}


/// The rim edge at fan position `i` around `e`: the successor of spoke `i`.
pub open spec fn ecv_rim(es: Seq<HalfEdge>, e: int, i: int) -> int {
    ref_index(es[fan_at(es, e, i)].next)
}

/// The fan from `e` takes `d` resolved steps: every spoke, rim and rim twin
/// along it is present.
pub open spec fn ecv_fan_defined(pre: Polyhedron2, e: int, d: int) -> bool {
    forall|i: int| 0 <= i <= d ==> #[trigger] fan_walk(pre.edges@, e, i as nat) is Some
}

/// Every fan triangle resolves: each spoke has a facet, a twin and a
/// successor of that twin, and each rim's `next` chain returns to its spoke.
pub open spec fn ecv_adjacent(pre: Polyhedron2, e: int, d: int) -> bool {
    let es = pre.edges@;
    forall|i: int|
        0 <= i < d ==> {
            &&& es[#[trigger] fan_at(es, e, i)].face is Some
            &&& es[fan_at(es, e, i)].opposite is Some
            &&& es[ref_index(es[fan_at(es, e, i)].opposite)].next is Some
            &&& exists|m: int|
                1 <= m <= es.len() + 1 && #[trigger] walk(es, ecv_rim(es, e, i), m as nat)
                    == Option::<int>::Some(fan_at(es, e, i))
        }
}

/// The fan is non-degenerate: no triangle loop closes in one step, the
/// spokes, the rims and the retired facets are pairwise distinct, and no
/// retired facet is the kept one.
pub open spec fn ecv_distinct(pre: Polyhedron2, e: int, d: int) -> bool {
    let es = pre.edges@;
    let f = ref_index(es[e].face);
    &&& forall|i: int|
        0 <= i < d ==> ref_index(es[#[trigger] ecv_rim(es, e, i)].next) != fan_at(es, e, i)
    &&& forall|i: int, j: int|
        0 <= i < j < d ==> #[trigger] fan_at(es, e, i) != #[trigger] fan_at(es, e, j)
    &&& forall|i: int, j: int|
        0 <= i < j < d ==> #[trigger] ecv_rim(es, e, i) != #[trigger] ecv_rim(es, e, j)
    &&& forall|i: int, j: int|
        0 <= i < d && 0 <= j < d ==> #[trigger] fan_at(es, e, i) != #[trigger] ecv_rim(es, e, j)
    &&& forall|i: int, j: int|
        1 <= i < j < d ==> ref_index(es[#[trigger] fan_at(es, e, i)].face) != ref_index(
            es[#[trigger] fan_at(es, e, j)].face,
        )
    &&& forall|i: int| 1 <= i < d ==> ref_index(es[#[trigger] fan_at(es, e, i)].face) != f
}

/// Every element the erase retires is still owned by the container.
pub open spec fn ecv_live(pre: Polyhedron2, e: int, d: int) -> bool {
    let es = pre.edges@;
    &&& forall|i: int|
        0 <= i < d ==> es[#[trigger] fan_at(es, e, i)].live && es[ecv_rim(es, e, i)].live
    &&& forall|i: int|
        1 <= i < d ==> pre.facets@[ref_index(es[#[trigger] fan_at(es, e, i)].face)].live
    &&& pre.vertices@[ref_index(es[e].vertex)].live
}

/// `erase_center_vertex` resolves on `e`: its facet and hub origin are
/// present, the hub's fan closes with some degree `d`, and along `e`'s own
/// fan of that degree everything resolves, is pairwise distinct and is
/// live.
pub open spec fn ecv_applicable(pre: Polyhedron2, e: int) -> bool {
    let es = pre.edges@;
    let hub = ref_index(es[e].vertex);
    let hs = ref_index(pre.vertices@[hub].edge);
    &&& es[e].face is Some
    &&& es[e].vertex is Some
    &&& pre.vertices@[hub].edge is Some
    &&& has_fan_loop(es, hs)
    &&& exists|d: int|
        #[trigger] is_fan_loop(es, hs, d) && {
            &&& ecv_fan_defined(pre, e, d)
            &&& ecv_adjacent(pre, e, d)
            &&& ecv_distinct(pre, e, d)
            &&& ecv_live(pre, e, d)
        }
}

/// `create_center_vertex` resolves on `e`: the centroid of `e`'s facet loop
/// is defined, the facet and its boundary edge are present, and the
/// boundary's own loop closes with every origin present.
pub open spec fn ccv_applicable(pre: Polyhedron2, e: int) -> bool {
    let es = pre.edges@;
    let of = ref_index(es[e].face);
    let s0 = ref_index(pre.facets@[of].edge);
    &&& pre.loop_resolved(e)
    &&& es[e].face is Some
    &&& pre.facets@[of].edge is Some
    &&& pre.loop_resolved(s0)
}

/// The mesh after fanning the facet of `e` around a new center vertex,
/// where `d` is the facet degree counted from the facet's boundary edge.
/// Boundary edge `i` of the old loop now leads to inward spoke `2i`, which
/// leads to outward spoke `2i − 1` of the previous triangle; outward spoke
/// `2i + 1` returns to boundary edge `i + 1`.  Triangle `i` reuses the old
/// facet for `i == 0` and a new facet slot otherwise.
pub open spec fn ccv_shape(pre: Polyhedron2, post: Polyhedron2, e: int, d: int) -> bool {
    let es = pre.edges@;
    let of = ref_index(es[e].face);
    let s0 = ref_index(pre.facets@[of].edge);
    let n = es.len() as int;
    let nf = pre.facets@.len() as int;
    let nv = pre.vertices@.len() as int;
    &&& post.edges@.len() == n + 2 * d
    &&& post.facets@.len() == nf + (d - 1)
    &&& post.vertices@.len() == nv + 1
    &&& forall|i: int| 0 <= i < nv ==> post.vertices@[i] == #[trigger] pre.vertices@[i]
    &&& post.vertices@[nv].edge == some_handle(n)
    &&& post.vertices@[nv].live
    &&& forall|de: int|
        #[trigger] is_loop(es, e, de) ==> {
            &&& post.vertices@[nv].position.x as int == div_trunc(pre.loop_sum_x(e, de as nat), de)
            &&& post.vertices@[nv].position.y as int == div_trunc(pre.loop_sum_y(e, de as nat), de)
        }
    &&& forall|i: int|
        0 <= i < d ==> post.edges@[#[trigger] walk_at(es, s0, i)] == (HalfEdge {
            vertex: es[walk_at(es, s0, i)].vertex,
            face: some_handle(
                if i == 0 {
                    of
                } else {
                    nf + i - 1
                },
            ),
            opposite: es[walk_at(es, s0, i)].opposite,
            next: some_handle(n + 2 * i),
            live: es[walk_at(es, s0, i)].live,
        })
    &&& forall|i: int|
        0 <= i < d ==> #[trigger] post.edges@[n + 2 * i] == (HalfEdge {
            vertex: some_handle(nv),
            face: some_handle(
                if i == 0 {
                    of
                } else {
                    nf + i - 1
                },
            ),
            opposite: some_handle(n + 2 * i + 1),
            next: some_handle(
                if i == 0 {
                    n + 2 * d - 1
                } else {
                    n + 2 * i - 1
                },
            ),
            live: true,
        })
    &&& forall|i: int|
        0 <= i < d ==> #[trigger] post.edges@[n + 2 * i + 1] == (HalfEdge {
            vertex: es[walk_at(es, s0, i)].vertex,
            face: some_handle(
                if i == d - 1 {
                    of
                } else {
                    nf + i
                },
            ),
            opposite: some_handle(n + 2 * i),
            next: some_handle(
                walk_at(
                    es,
                    s0,
                    if i == d - 1 {
                        0
                    } else {
                        i + 1
                    },
                ),
            ),
            live: true,
        })
    &&& forall|i: int|
        0 <= i < n && !on_loop(es, s0, d, i) ==> post.edges@[i] == #[trigger] es[i]
    &&& forall|i: int| 0 <= i < nf ==> post.facets@[i] == #[trigger] pre.facets@[i]
    &&& forall|i: int|
        1 <= i < d ==> #[trigger] post.facets@[nf + i - 1] == (Facet {
            edge: some_handle(walk_at(es, s0, i)),
            live: true,
        })
}

/// `split_vertex` resolves on `e1` and `e2`: the two distinct edges share a
/// present origin, their facets and successors resolve, and `e2` is reached
/// from `e1` by fan steps.
pub open spec fn split_vertex_applicable(pre: Polyhedron2, e1: int, e2: int) -> bool {
    let es = pre.edges@;
    &&& es[e1].vertex is Some
    &&& es[e2].vertex is Some
    &&& es[e1].vertex == es[e2].vertex
    &&& e1 != e2
    &&& es[e1].face is Some
    &&& es[e2].face is Some
    &&& es[e1].next is Some
    &&& es[e2].next is Some
    &&& has_fan_path(es, e1, e2)
}

/// The mesh after splitting the shared origin of `e1` and `e2`, where `k`
/// is the fan distance from `e1` to `e2`.  A new vertex at the same
/// position takes over the fan range strictly between `e1` and `e2` and
/// `e2` itself; a new twin-paired edge pair is spliced after `e1` and after
/// `e2`.
pub open spec fn split_vertex_shape(
    pre: Polyhedron2,
    post: Polyhedron2,
    e1: int,
    e2: int,
    k: int,
) -> bool {
    let es = pre.edges@;
    let n = es.len() as int;
    let nv = pre.vertices@.len() as int;
    &&& post.facets@ == pre.facets@
    &&& post.vertices@ == pre.vertices@.push(
        Vertex {
            position: pre.vertices@[ref_index(es[e1].vertex)].position,
            edge: some_handle(e2),
            live: true,
        },
    )
    &&& post.edges@.len() == n + 2
    &&& post.edges@[n] == (HalfEdge {
        vertex: some_handle(nv),
        face: es[e1].face,
        opposite: some_handle(n + 1),
        next: es[e1].next,
        live: true,
    })
    &&& post.edges@[n + 1] == (HalfEdge {
        vertex: es[e1].vertex,
        face: es[e2].face,
        opposite: some_handle(n),
        next: es[e2].next,
        live: true,
    })
    &&& post.edges@[e1] == (HalfEdge {
        vertex: es[e1].vertex,
        face: es[e1].face,
        opposite: es[e1].opposite,
        next: some_handle(n),
        live: es[e1].live,
    })
    &&& post.edges@[e2] == (HalfEdge {
        vertex: some_handle(nv),
        face: es[e2].face,
        opposite: es[e2].opposite,
        next: some_handle(n + 1),
        live: es[e2].live,
    })
    &&& forall|t: int|
        1 <= t < k ==> post.edges@[#[trigger] fan_at(es, e1, t)] == (HalfEdge {
            vertex: some_handle(nv),
            face: es[fan_at(es, e1, t)].face,
            opposite: es[fan_at(es, e1, t)].opposite,
            next: es[fan_at(es, e1, t)].next,
            live: es[fan_at(es, e1, t)].live,
        })
    &&& forall|i: int|
        0 <= i < n && i != e1 && i != e2 && !(exists|t: int|
            1 <= t < k && #[trigger] fan_at(es, e1, t) == i) ==> post.edges@[i] == #[trigger] es[i]
}

/// `join_vertex` resolves on `e`: the edge, its twin, their distinct
/// origins, facets and successors are present, both facet loops close, the
/// twin's fan reaches the predecessor of `e`, and the twin and the twin's
/// origin are still owned by the container.
pub open spec fn join_vertex_applicable(pre: Polyhedron2, e: int) -> bool {
    let es = pre.edges@;
    let o = ref_index(es[e].opposite);
    &&& es[e].opposite is Some
    &&& es[e].vertex is Some
    &&& es[o].vertex is Some
    &&& es[e].face is Some
    &&& es[o].face is Some
    &&& es[e].next is Some
    &&& es[o].next is Some
    &&& has_loop(es, e)
    &&& has_loop(es, o)
    &&& o != e
    &&& ref_index(es[e].vertex) != ref_index(es[o].vertex)
    &&& exists|de: int|
        #[trigger] is_loop(es, e, de) && {
            let pe = walk_at(es, e, de - 1);
            pe == o || has_fan_path(es, o, pe)
        }
    &&& es[o].live
    &&& pre.vertices@[ref_index(es[o].vertex)].live
}

/// A flip rewires and re-anchors elements but retires none and adds none: it
/// keeps the container well-formed and every count unchanged.
#[verifier::rlimit(100)]
#[verifier::spinoff_prover]
proof fn lemma_flip_preserves(pre: Polyhedron2, post: Polyhedron2, e: int)
    requires
        pre.wf(),
        0 <= e < pre.edges@.len(),
        flip_applicable(pre, e),
        post.edges@ == flip_edges_after(pre, e),
        post.facets@ == flip_facets_after(pre, e),
        post.vertices@ == flip_vertices_after(pre, e),
    ensures
        post.wf(),
        post.vertex_count() == pre.vertex_count(),
        post.edge_count() == pre.edge_count(),
        post.facet_count() == pre.facet_count(),
{
    pre.lemma_wf_edges_closed();
    let es = pre.edges@;
    assert(pre.edge_ok(es[e]));
    let o = ref_index(es[e].opposite);
    assert(pre.edge_ok(es[o]));
    assert(walk(es, e, 0) == Option::<int>::Some(e));
    assert(walk(es, e, 3) == Option::<int>::Some(e));
    assert(walk(es, o, 0) == Option::<int>::Some(o));
    assert(walk(es, o, 3) == Option::<int>::Some(o));
    lemma_walk_add(es, e, 1, 2);
    assert(walk(es, e, 1) is Some);
    let ne = ref_index(es[e].next);
    assert(walk(es, e, 1) == Option::<int>::Some(ne));
    lemma_walk_in_bounds(es, e, 1, ne);
    lemma_walk_add(es, e, 2, 1);
    assert(walk(es, e, 2) is Some);
    let pe = ref_index(es[ne].next);
    assert(walk(es, e, 2) == Option::<int>::Some(pe));
    lemma_walk_in_bounds(es, e, 2, pe);
    lemma_walk_add(es, o, 1, 2);
    assert(walk(es, o, 1) is Some);
    let no = ref_index(es[o].next);
    assert(walk(es, o, 1) == Option::<int>::Some(no));
    lemma_walk_in_bounds(es, o, 1, no);
    lemma_walk_add(es, o, 2, 1);
    assert(walk(es, o, 2) is Some);
    let po = ref_index(es[no].next);
    assert(walk(es, o, 2) == Option::<int>::Some(po));
    lemma_walk_in_bounds(es, o, 2, po);
    lemma_live_count_agree(post.edges@, pre.edges@, pre.edges@.len() as int);
    lemma_live_count_agree(post.facets@, pre.facets@, pre.facets@.len() as int);
    lemma_live_count_agree(post.vertices@, pre.vertices@, pre.vertices@.len() as int);
    assert forall|i: int| 0 <= i < post.edges@.len() implies post.edge_ok(
        #[trigger] post.edges@[i],
    ) by {
        assert(pre.edge_ok(pre.edges@[i]));
        assert(pre.edge_ok(pre.edges@[ne]));
        assert(pre.edge_ok(pre.edges@[no]));
    }
    assert forall|i: int| 0 <= i < post.facets@.len() implies post.facet_ok(
        #[trigger] post.facets@[i],
    ) by {
        assert(pre.facet_ok(pre.facets@[i]));
    }
    assert forall|i: int| 0 <= i < post.vertices@.len() implies post.vertex_ok(
        #[trigger] post.vertices@[i],
    ) by {
        assert(pre.vertex_ok(pre.vertices@[i]));
    }
}

/// Once the fan's new facets, spokes and center vertex are in place and the
/// boundary loop is rewired, the container is well-formed, the counts have
/// grown by the fan's size, and the mesh has the fanned shape.
#[verifier::rlimit(100)]
#[verifier::spinoff_prover]
proof fn lemma_ccv_finish(
    pre: Polyhedron2,
    post: Polyhedron2,
    base: Seq<HalfEdge>,
    e: int,
    center: Pos2,
    fh: Handle,
    s0: int,
    d: int,
    slots: Seq<usize>,
    vo: Seq<Handle>,
)
    requires
        pre.wf(),
        pre.edges.len() * 3 <= ELEM_LIMIT,
        pre.facets.len() + pre.edges.len() <= ELEM_LIMIT,
        pre.vertices.len() + 1 <= ELEM_LIMIT,
        0 <= e < pre.edges@.len(),
        pre.edges@[e].face == Some(fh),
        fh.index < pre.facets.len(),
        pre.facets@[fh.index as int].edge == some_handle(s0),
        0 <= s0 < pre.edges@.len(),
        is_loop(pre.edges@, s0, d),
        d <= pre.edges@.len(),
        slots.len() == d,
        forall|j: int|
            0 <= j < d ==> walk(pre.edges@, s0, j as nat) == Option::<int>::Some(
                #[trigger] slots[j] as int,
            ),
        forall|j: int| 0 <= j < d ==> (#[trigger] slots[j]) < pre.edges@.len(),
        vo.len() == d,
        forall|j: int|
            0 <= j < d ==> pre.edges@[#[trigger] slots[j] as int].vertex == Some(vo[j]),
        center.bounded(),
        forall|de: int|
            #[trigger] is_loop(pre.edges@, e, de) ==> {
                &&& center.x as int == div_trunc(pre.loop_sum_x(e, de as nat), de)
                &&& center.y as int == div_trunc(pre.loop_sum_y(e, de as nat), de)
            },
        base.len() == pre.edges@.len() + 2 * d,
        forall|t: int| 0 <= t < pre.edges@.len() ==> #[trigger] base[t] == pre.edges@[t],
        forall|t: int|
            0 <= t < d ==> #[trigger] base[pre.edges@.len() + 2 * t] == (HalfEdge {
                vertex: some_handle(pre.vertices@.len() as int),
                face: some_handle(
                    if t == 0 {
                        fh.index as int
                    } else {
                        pre.facets@.len() + t - 1
                    },
                ),
                opposite: some_handle(pre.edges@.len() + 2 * t + 1),
                next: some_handle(
                    if t == 0 {
                        pre.edges@.len() + 2 * d - 1
                    } else {
                        pre.edges@.len() + 2 * t - 1
                    },
                ),
                live: true,
            }),
        forall|t: int|
            0 <= t < d ==> #[trigger] base[pre.edges@.len() + 2 * t + 1] == (HalfEdge {
                vertex: Some(vo[t]),
                face: some_handle(
                    if t == d - 1 {
                        fh.index as int
                    } else {
                        pre.facets@.len() + t
                    },
                ),
                opposite: some_handle(pre.edges@.len() + 2 * t),
                next: some_handle(
                    walk_at(
                        pre.edges@,
                        s0,
                        if t == d - 1 {
                            0
                        } else {
                            t + 1
                        },
                    ),
                ),
                live: true,
            }),
        live_count(base, base.len() as int) == live_count(pre.edges@, pre.edges@.len() as int) + 2
            * d,
        post.vertices@ == pre.vertices@.push(
            Vertex {
                position: center,
                edge: some_handle(pre.edges@.len() as int),
                live: true,
            },
        ),
        post.facets@.len() == pre.facets@.len() + d - 1,
        forall|t: int| 0 <= t < pre.facets@.len() ==> post.facets@[t] == #[trigger] pre.facets@[t],
        forall|t: int|
            1 <= t < d ==> #[trigger] post.facets@[pre.facets@.len() + t - 1] == (Facet {
                edge: some_handle(slots[t] as int),
                live: true,
            }),
        live_count(post.facets@, post.facets@.len() as int) == live_count(
            pre.facets@,
            pre.facets@.len() as int,
        ) + d - 1,
        post.edges@.len() == base.len(),
        forall|t: int|
            0 <= t < d ==> post.edges@[#[trigger] slots[t] as int] == (HalfEdge {
                vertex: pre.edges@[slots[t] as int].vertex,
                face: some_handle(
                    if t == 0 {
                        fh.index as int
                    } else {
                        pre.facets@.len() + t - 1
                    },
                ),
                opposite: pre.edges@[slots[t] as int].opposite,
                next: some_handle(pre.edges@.len() + 2 * t),
                live: pre.edges@[slots[t] as int].live,
            }),
        forall|j: int|
            0 <= j < base.len() && !(exists|t: int| 0 <= t < d && #[trigger] slots[t]
                == j as usize) ==> post.edges@[j] == #[trigger] base[j],
        forall|j: int|
            0 <= j < base.len() ==> (#[trigger] post.edges@[j]).is_live() == base[j].is_live(),
    ensures
        post.wf(),
        post.vertex_count() == pre.vertex_count() + 1,
        post.edge_count() == pre.edge_count() + 2 * d,
        post.facet_count() == pre.facet_count() + (d - 1),
        ccv_shape(pre, post, e, d),
{
    let es = pre.edges@;
    let n = pre.edges@.len() as int;
    let nf = pre.facets@.len() as int;
    let nv = pre.vertices@.len() as int;
    pre.lemma_wf_edges_closed();
    assert forall|a: int, b: int| 0 <= a < b < d implies slots[a] != slots[b] by {
        lemma_loop_distinct(es, s0, d, a, b);
    }
    lemma_live_count_push(
        pre.vertices@,
        Vertex { position: center, edge: some_handle(n), live: true },
    );
            lemma_live_count_agree(post.edges@, base, base.len() as int);
            assert(post.vertex_count() == pre.vertex_count() + 1);
            assert(post.edge_count() == pre.edge_count() + 2 * d);
            assert(post.facet_count() == pre.facet_count() + (d - 1));
            assert forall|t: int| 0 <= t < d implies #[trigger] walk_at(es, s0, t)
                == slots[t] as int by {
                assert(walk(es, s0, t as nat) == Option::<int>::Some(slots[t] as int));
            }
            assert forall|t: int|
                0 <= t < d implies #[trigger] post.edges@[n + 2 * t] == base[n + 2 * t]
                && post.edges@[n + 2 * t + 1] == base[n + 2 * t + 1] by {}
            assert(ccv_shape(pre, post, e, d)) by {
                assert(walk_at(es, s0, 0) == s0);
                assert(slots[0] == s0);
                assert forall|j: int|
                    0 <= j < n && !on_loop(es, s0, d, j) implies post.edges@[j]
                    == #[trigger] es[j] by {
                    assert forall|t: int| 0 <= t < d implies #[trigger] slots[t]
                        != j as usize by {
                        if slots[t] == j as usize {
                            assert(walk(es, s0, t as nat) == Option::<int>::Some(j));
                        }
                    }
                }
            }
            assert forall|i4: int| 0 <= i4 < post.edges@.len() implies post.edge_ok(
                #[trigger] post.edges@[i4],
            ) by {
                if i4 < n {
                    assert(pre.edge_ok(pre.edges@[i4]));
                    if on_loop(es, s0, d, i4) {
                        let j = choose|j: nat|
                            j < d && walk(es, s0, j) == Option::<int>::Some(i4);
                        assert(walk_at(es, s0, j as int) == i4);
                        assert(slots[j as int] == i4 as usize);
                    }
                } else {
                    let t = (i4 - n) / 2;
                    assert(0 <= t < d);
                    if i4 == n + 2 * t {
                        assert(post.edges@[n + 2 * t] == base[n + 2 * t]);
                    } else {
                        assert(i4 == n + 2 * t + 1);
                        assert(post.edges@[n + 2 * t + 1] == base[n + 2 * t + 1]);
                    }
                }
            }
            assert forall|i4: int| 0 <= i4 < post.facets@.len() implies post.facet_ok(
                #[trigger] post.facets@[i4],
            ) by {
                if i4 < nf {
                    assert(pre.facet_ok(pre.facets@[i4]));
                } else {
                    let t = i4 - nf + 1;
                    assert(post.facets@[nf + t - 1] == (Facet {
                        edge: some_handle(slots[t] as int),
                        live: true,
                    }));
                }
            }
            assert forall|i4: int| 0 <= i4 < post.vertices@.len() implies post.vertex_ok(
                #[trigger] post.vertices@[i4],
            ) by {
                if i4 < nv {
                    assert(pre.vertex_ok(pre.vertices@[i4]));
                }
            }
}

impl Polyhedron2 {
    /// Retires the listed edge slots in place: the slots, pairwise distinct
    /// and all live, keep their fields but stop counting.
    #[verifier::loop_isolation(false)]
    fn retire_edges(&mut self, kill: &Vec<usize>)
        requires
            old(self).wf(),
            forall|j: int| 0 <= j < kill@.len() ==> (#[trigger] kill@[j]) < old(self).edges.len(),
            forall|a: int, b: int| 0 <= a < b < kill@.len() ==> kill@[a] != kill@[b],
            forall|j: int|
                0 <= j < kill@.len() ==> old(self).edges@[#[trigger] kill@[j] as int].live,
        ensures
            final(self).wf(),
            final(self).vertices@ == old(self).vertices@,
            final(self).facets@ == old(self).facets@,
            final(self).edges@.len() == old(self).edges@.len(),
            final(self).edge_count() == old(self).edge_count() - kill@.len(),
            forall|j: int|
                0 <= j < kill@.len() ==> final(self).edges@[#[trigger] kill@[j] as int]
                    == (HalfEdge {
                    vertex: old(self).edges@[kill@[j] as int].vertex,
                    face: old(self).edges@[kill@[j] as int].face,
                    opposite: old(self).edges@[kill@[j] as int].opposite,
                    next: old(self).edges@[kill@[j] as int].next,
                    live: false,
                }),
            forall|i: int|
                0 <= i < old(self).edges@.len() && !(exists|j: int|
                    0 <= j < kill@.len() && #[trigger] kill@[j] == i as usize)
                    ==> final(self).edges@[i] == #[trigger] old(self).edges@[i],
    {
        let ghost es = self.edges@;
        let ghost pre = *self;
        let mut t: usize = 0;
        while t < kill.len()
            invariant
                t <= kill@.len(),
                self.vertices@ == pre.vertices@,
                self.facets@ == pre.facets@,
                self.edges@.len() == es.len(),
                live_count(self.edges@, self.edges@.len() as int) == live_count(
                    es,
                    es.len() as int,
                ) - t,
                forall|j: int|
                    0 <= j < t ==> self.edges@[#[trigger] kill@[j] as int] == (HalfEdge {
                        vertex: es[kill@[j] as int].vertex,
                        face: es[kill@[j] as int].face,
                        opposite: es[kill@[j] as int].opposite,
                        next: es[kill@[j] as int].next,
                        live: false,
                    }),
                forall|i: int|
                    0 <= i < es.len() && !(exists|j: int| 0 <= j < t && #[trigger] kill@[j]
                        == i as usize) ==> self.edges@[i] == #[trigger] es[i],
            decreases kill@.len() - t,
        {
            let s: usize = kill[t];
            proof {
                assert(self.edges@[s as int] == es[s as int]) by {
                    if exists|j: int| 0 <= j < t && #[trigger] kill@[j] == s {
                        let j = choose|j: int| 0 <= j < t && #[trigger] kill@[j] == s;
                        assert(kill@[j] != kill@[t as int]);
                    }
                }
                lemma_live_count_update(
                    self.edges@,
                    self.edges@.len() as int,
                    s as int,
                    HalfEdge {
                        vertex: es[s as int].vertex,
                        face: es[s as int].face,
                        opposite: es[s as int].opposite,
                        next: es[s as int].next,
                        live: false,
                    },
                );
            }
            self.edges[s].live = false;
            t = t + 1;
        }
        proof {
            assert forall|i: int| 0 <= i < self.edges@.len() implies self.edge_ok(
                #[trigger] self.edges@[i],
            ) by {
                assert(pre.edge_ok(pre.edges@[i]));
            }
            assert forall|i: int| 0 <= i < self.facets@.len() implies self.facet_ok(
                #[trigger] self.facets@[i],
            ) by {
                assert(pre.facet_ok(pre.facets@[i]));
            }
            assert forall|i: int| 0 <= i < self.vertices@.len() implies self.vertex_ok(
                #[trigger] self.vertices@[i],
            ) by {
                assert(pre.vertex_ok(pre.vertices@[i]));
            }
        }
    }

    /// Retires the listed facet slots in place, as `retire_edges` does for
    /// edges.
    #[verifier::loop_isolation(false)]
    fn retire_facets(&mut self, kill: &Vec<usize>)
        requires
            old(self).wf(),
            forall|j: int| 0 <= j < kill@.len() ==> (#[trigger] kill@[j]) < old(self).facets.len(),
            forall|a: int, b: int| 0 <= a < b < kill@.len() ==> kill@[a] != kill@[b],
            forall|j: int|
                0 <= j < kill@.len() ==> old(self).facets@[#[trigger] kill@[j] as int].live,
        ensures
            final(self).wf(),
            final(self).vertices@ == old(self).vertices@,
            final(self).edges@ == old(self).edges@,
            final(self).facets@.len() == old(self).facets@.len(),
            final(self).facet_count() == old(self).facet_count() - kill@.len(),
            forall|j: int|
                0 <= j < kill@.len() ==> final(self).facets@[#[trigger] kill@[j] as int]
                    == (Facet { edge: old(self).facets@[kill@[j] as int].edge, live: false }),
            forall|i: int|
                0 <= i < old(self).facets@.len() && !(exists|j: int|
                    0 <= j < kill@.len() && #[trigger] kill@[j] == i as usize)
                    ==> final(self).facets@[i] == #[trigger] old(self).facets@[i],
    {
        let ghost fs = self.facets@;
        let ghost pre = *self;
        let mut t: usize = 0;
        while t < kill.len()
            invariant
                t <= kill@.len(),
                self.vertices@ == pre.vertices@,
                self.edges@ == pre.edges@,
                self.facets@.len() == fs.len(),
                live_count(self.facets@, self.facets@.len() as int) == live_count(
                    fs,
                    fs.len() as int,
                ) - t,
                forall|j: int|
                    0 <= j < t ==> self.facets@[#[trigger] kill@[j] as int] == (Facet {
                        edge: fs[kill@[j] as int].edge,
                        live: false,
                    }),
                forall|i: int|
                    0 <= i < fs.len() && !(exists|j: int| 0 <= j < t && #[trigger] kill@[j]
                        == i as usize) ==> self.facets@[i] == #[trigger] fs[i],
            decreases kill@.len() - t,
        {
            let s: usize = kill[t];
            proof {
                assert(self.facets@[s as int] == fs[s as int]) by {
                    if exists|j: int| 0 <= j < t && #[trigger] kill@[j] == s {
                        let j = choose|j: int| 0 <= j < t && #[trigger] kill@[j] == s;
                        assert(kill@[j] != kill@[t as int]);
                    }
                }
                lemma_live_count_update(
                    self.facets@,
                    self.facets@.len() as int,
                    s as int,
                    Facet { edge: fs[s as int].edge, live: false },
                );
            }
            self.facets[s].live = false;
            t = t + 1;
        }
        proof {
            assert forall|i: int| 0 <= i < self.facets@.len() implies self.facet_ok(
                #[trigger] self.facets@[i],
            ) by {
                assert(pre.facet_ok(pre.facets@[i]));
            }
        }
    }

    /// Swaps the shared diagonal of two adjacent triangles so that it
    /// connects their apex vertices instead of the original pair, restitching
    /// the four outer edges.  Requires both adjacent facets to have degree
    /// exactly three; fails with `PreconditionViolation` otherwise and with
    /// `MissingAdjacency` when a needed reference is absent, in both cases
    /// leaving the mesh unchanged.
    #[verifier::rlimit(100)]
    pub fn flip_edge(&mut self, edge: Handle) -> (r: Result<(), MeshError>)
        requires
            old(self).wf(),
            old(self).valid_edge(edge),
        ensures
            final(self).wf(),
            r is Ok <==> flip_applicable(*old(self), edge.index as int),
            match r {
                Ok(_) => {
                    &&& final(self).edges@ == flip_edges_after(*old(self), edge.index as int)
                    &&& final(self).facets@ == flip_facets_after(*old(self), edge.index as int)
                    &&& final(self).vertices@ == flip_vertices_after(*old(self), edge.index as int)
                    &&& final(self).vertex_count() == old(self).vertex_count()
                    &&& final(self).edge_count() == old(self).edge_count()
                    &&& final(self).facet_count() == old(self).facet_count()
                },
                Err(err) => {
                    &&& *final(self) == *old(self)
                    &&& {
                        let es = old(self).edges@;
                        let e = edge.index as int;
                        let o = ref_index(es[e].opposite);
                        if es[e].face is None || es[e].vertex is None || es[e].opposite is None {
                            err == MeshError::MissingAdjacency
                        } else if es[o].face is None || es[o].vertex is None {
                            err == MeshError::MissingAdjacency
                        } else if !has_loop(es, e) || !has_loop(es, o) {
                            err == MeshError::MissingAdjacency
                        } else if !is_loop(es, e, 3) || !is_loop(es, o, 3) {
                            err == MeshError::PreconditionViolation
                        } else {
                            err == MeshError::MissingAdjacency && (es[ref_index(es[e].next)].vertex
                                is None || es[ref_index(es[o].next)].vertex is None)
                        }
                    }
                },
            },
    {
        let e: usize = edge.index;
        proof {
            self.lemma_wf_edges_closed();
        }
        let f: Handle = match self.edges[e].face {
            Some(h) => h,
            None => {
                return Err(MeshError::MissingAdjacency);
            },
        };
        let v: Handle = match self.edges[e].vertex {
            Some(h) => h,
            None => {
                return Err(MeshError::MissingAdjacency);
            },
        };
        let o: Handle = match self.edges[e].opposite {
            Some(h) => h,
            None => {
                return Err(MeshError::MissingAdjacency);
            },
        };
        let of: Handle = match self.edges[o.index].face {
            Some(h) => h,
            None => {
                return Err(MeshError::MissingAdjacency);
            },
        };
        let ov: Handle = match self.edges[o.index].vertex {
            Some(h) => h,
            None => {
                return Err(MeshError::MissingAdjacency);
            },
        };
        let d1: usize = match self.loop_degree(e) {
            Ok(d) => d,
            Err(err) => {
                return Err(err);
            },
        };
        let d2: usize = match self.loop_degree(o.index) {
            Ok(d) => d,
            Err(err) => {
                return Err(err);
            },
        };
        proof {
            if is_loop(self.edges@, e as int, 3) {
                lemma_loop_unique(self.edges@, e as int, 3, d1 as int);
            }
            if is_loop(self.edges@, o.index as int, 3) {
                lemma_loop_unique(self.edges@, o.index as int, 3, d2 as int);
            }
        }
        if d1 != 3 || d2 != 3 {
            return Err(MeshError::PreconditionViolation);
        }
        proof {
            assert(walk(self.edges@, e as int, 0) == Option::<int>::Some(e as int));
            assert(walk(self.edges@, e as int, 3) == Option::<int>::Some(e as int));
            assert(walk(self.edges@, o.index as int, 0) == Option::<int>::Some(o.index as int));
            assert(walk(self.edges@, o.index as int, 3) == Option::<int>::Some(o.index as int));
            lemma_walk_add(self.edges@, e as int, 1, 2);
            assert(walk(self.edges@, e as int, 1) is Some);
            assert(self.edges@[e as int].next is Some);
        }
        let ne: usize = self.edges[e].next.unwrap().index;
        proof {
            assert(walk(self.edges@, e as int, 1) == Option::<int>::Some(ne as int));
            lemma_walk_add(self.edges@, e as int, 2, 1);
            assert(walk(self.edges@, e as int, 2) is Some);
            assert(self.edges@[ne as int].next is Some);
        }
        let pe: usize = self.edges[ne].next.unwrap().index;
        proof {
            assert(walk(self.edges@, e as int, 2) == Option::<int>::Some(pe as int));
            lemma_walk_add(self.edges@, o.index as int, 1, 2);
            assert(self.edges@[o.index as int].next is Some);
        }
        let no: usize = self.edges[o.index].next.unwrap().index;
        proof {
            assert(walk(self.edges@, o.index as int, 1) == Option::<int>::Some(no as int));
            lemma_walk_add(self.edges@, o.index as int, 2, 1);
            assert(walk(self.edges@, o.index as int, 2) is Some);
            assert(self.edges@[no as int].next is Some);
        }
        let po: usize = self.edges[no].next.unwrap().index;
        proof {
            assert(walk(self.edges@, o.index as int, 2) == Option::<int>::Some(po as int));
        }
        let vne: Handle = match self.edges[ne].vertex {
            Some(h) => h,
            None => {
                return Err(MeshError::MissingAdjacency);
            },
        };
        let vno: Handle = match self.edges[no].vertex {
            Some(h) => h,
            None => {
                return Err(MeshError::MissingAdjacency);
            },
        };
        let ghost pre = *self;
        self.edges[e].vertex = Some(vne);
        self.edges[e].next = Some(Handle { index: pe });
        self.edges[o.index].vertex = Some(vno);
        self.edges[o.index].next = Some(Handle { index: po });
        self.edges[ne].face = Some(of);
        self.edges[ne].next = Some(o);
        self.edges[no].face = Some(f);
        self.edges[no].next = Some(Handle { index: e });
        self.edges[pe].next = Some(Handle { index: no });
        self.edges[po].next = Some(Handle { index: ne });
        self.facets[f.index].edge = Some(Handle { index: e });
        self.facets[of.index].edge = Some(o);
        self.vertices[v.index].edge = Some(Handle { index: po });
        self.vertices[ov.index].edge = Some(Handle { index: pe });
        proof {
            assert(self.edges@ =~= flip_edges_after(pre, e as int));
            assert(self.facets@ =~= flip_facets_after(pre, e as int));
            assert(self.vertices@ =~= flip_vertices_after(pre, e as int));
            lemma_flip_preserves(pre, *self, e as int);
        }
        Ok(())
    }

    /// Splits the facet bounded by `edge1` and `edge2` in two: a new
    /// twin-paired half-edge pair joins the destination of `edge1` to the
    /// destination of `edge2`, the old facet keeps the segment after
    /// `edge2`, and a new facet takes the segment up to `edge2`.  Fails with
    /// `MissingAdjacency` when a needed reference is absent or the facet
    /// loop never closes, and with `PreconditionViolation` when the two
    /// edges do not bound the same facet, in both cases leaving the mesh
    /// unchanged.
    #[verifier::loop_isolation(false)]
    #[verifier::rlimit(100)]
    pub fn split_facet(&mut self, edge1: Handle, edge2: Handle) -> (r: Result<(), MeshError>)
        requires
            old(self).wf(),
            old(self).valid_edge(edge1),
            old(self).valid_edge(edge2),
            old(self).edges.len() + 2 <= ELEM_LIMIT,
            old(self).facets.len() + 1 <= ELEM_LIMIT,
        ensures
            final(self).wf(),
            r is Ok <==> split_facet_applicable(
                *old(self),
                edge1.index as int,
                edge2.index as int,
            ),
            match r {
                Ok(_) => {
                    &&& final(self).vertex_count() == old(self).vertex_count()
                    &&& final(self).edge_count() == old(self).edge_count() + 2
                    &&& final(self).facet_count() == old(self).facet_count() + 1
                    &&& exists|d: int, k: nat|
                        #![trigger is_loop(old(self).edges@, edge1.index as int, d), walk(old(self).edges@, edge1.index as int, k)]
                        {
                            &&& 1 <= k < d
                            &&& is_loop(old(self).edges@, edge1.index as int, d)
                            &&& walk(old(self).edges@, edge1.index as int, k)
                                == Option::<int>::Some(edge2.index as int)
                            &&& split_facet_shape(
                                *old(self),
                                *final(self),
                                edge1.index as int,
                                edge2.index as int,
                                d,
                                k as int,
                            )
                        }
                },
                Err(err) => {
                    &&& *final(self) == *old(self)
                    &&& {
                        let es = old(self).edges@;
                        let a = edge1.index as int;
                        let b = edge2.index as int;
                        if es[a].face is None || es[b].face is None {
                            err == MeshError::MissingAdjacency
                        } else if es[a].face != es[b].face {
                            err == MeshError::PreconditionViolation
                        } else if es[a].vertex is None || es[b].vertex is None {
                            err == MeshError::MissingAdjacency
                        } else if !has_loop(es, a) {
                            err == MeshError::MissingAdjacency
                        } else {
                            err == MeshError::PreconditionViolation
                        }
                    }
                },
            },
    {
        let e1: usize = edge1.index;
        let e2: usize = edge2.index;
        proof {
            self.lemma_wf_edges_closed();
        }
        let f1h: Handle = match self.edges[e1].face {
            Some(h) => h,
            None => {
                return Err(MeshError::MissingAdjacency);
            },
        };
        let f1b: Handle = match self.edges[e2].face {
            Some(h) => h,
            None => {
                return Err(MeshError::MissingAdjacency);
            },
        };
        if f1h.index != f1b.index {
            return Err(MeshError::PreconditionViolation);
        }
        let v1: Handle = match self.edges[e1].vertex {
            Some(h) => h,
            None => {
                return Err(MeshError::MissingAdjacency);
            },
        };
        let v2: Handle = match self.edges[e2].vertex {
            Some(h) => h,
            None => {
                return Err(MeshError::MissingAdjacency);
            },
        };
        let d: usize = match self.loop_degree(e1) {
            Ok(d) => d,
            Err(err) => {
                return Err(err);
            },
        };
        let ghost es = self.edges@;
        let mut cur: usize = e1;
        let mut j: usize = 0;
        let mut kk: usize = 0;
        while j < d - 1
            invariant
                0 <= j <= d - 1,
                cur < self.edges.len(),
                walk(es, e1 as int, j as nat) == Option::<int>::Some(cur as int),
                kk == 0 ==> forall|t: nat|
                    1 <= t <= j ==> #[trigger] walk(es, e1 as int, t) != Option::<int>::Some(
                        e2 as int,
                    ),
                kk != 0 ==> 1 <= kk <= j && walk(es, e1 as int, kk as nat) == Option::<int>::Some(
                    e2 as int,
                ),
            decreases d - j,
        {
            proof {
                lemma_walk_add(es, e1 as int, (j + 1) as nat, (d - j - 1) as nat);
                assert(walk(es, e1 as int, d as nat) == Option::<int>::Some(e1 as int));
                assert(walk(es, e1 as int, (j + 1) as nat) is Some);
                assert(self.edges@[cur as int].next is Some);
            }
            let nxt: usize = self.edges[cur].next.unwrap().index;
            proof {
                assert(walk(es, e1 as int, (j + 1) as nat) == Option::<int>::Some(nxt as int));
            }
            cur = nxt;
            j = j + 1;
            if kk == 0 && cur == e2 {
                kk = j;
            }
        }
        if kk == 0 {
            proof {
                assert forall|dd: int, t: nat|
                    #![trigger is_loop(es, e1 as int, dd), walk(es, e1 as int, t)]
                    1 <= t < dd && is_loop(es, e1 as int, dd) implies walk(es, e1 as int, t)
                    != Option::<int>::Some(e2 as int) by {
                    lemma_loop_unique(es, e1 as int, dd, d as int);
                }
                assert(!split_facet_applicable(*self, e1 as int, e2 as int));
            }
            return Err(MeshError::PreconditionViolation);
        }
        let k: usize = kk;
        proof {
            assert(split_facet_applicable(*self, e1 as int, e2 as int));
            assert(self.edge_ok(self.edges@[e1 as int]));
        }
        let ghost preg = *self;
        self.split_facet_apply(e1, e2, d, k, f1h, v1, v2);
        proof {
            assert(is_loop(preg.edges@, e1 as int, d as int));
            assert(walk(preg.edges@, e1 as int, k as nat) == Option::<int>::Some(e2 as int));
        }
        Ok(())
    }

    /// Performs the rewiring of `split_facet` once its preconditions are
    /// established: `d` is the degree of the facet loop of `e1` and `k` the
    /// loop position of `e2`, `f1h` the shared facet, `v1` and `v2` the two
    /// origins.
    #[verifier::loop_isolation(false)]
    #[verifier::rlimit(100)]
    fn split_facet_apply(
        &mut self,
        e1: usize,
        e2: usize,
        d: usize,
        k: usize,
        f1h: Handle,
        v1: Handle,
        v2: Handle,
    )
        requires
            old(self).wf(),
            old(self).edges.len() + 2 <= ELEM_LIMIT,
            old(self).facets.len() + 1 <= ELEM_LIMIT,
            e1 < old(self).edges.len(),
            e2 < old(self).edges.len(),
            is_loop(old(self).edges@, e1 as int, d as int),
            d <= old(self).edges@.len(),
            1 <= k < d,
            walk(old(self).edges@, e1 as int, k as nat) == Option::<int>::Some(e2 as int),
            old(self).edges@[e1 as int].face == Some(f1h),
            f1h.index < old(self).facets.len(),
            old(self).edges@[e1 as int].vertex == Some(v1),
            old(self).edges@[e2 as int].vertex == Some(v2),
        ensures
            final(self).wf(),
            final(self).vertex_count() == old(self).vertex_count(),
            final(self).edge_count() == old(self).edge_count() + 2,
            final(self).facet_count() == old(self).facet_count() + 1,
            split_facet_shape(
                *old(self),
                *final(self),
                e1 as int,
                e2 as int,
                d as int,
                k as int,
            ),
    {
        let ghost es = self.edges@;
        proof {
            self.lemma_wf_edges_closed();
            assert forall|a: int, b: int| 0 <= a < b < d implies walk_at(es, e1 as int, a)
                != walk_at(es, e1 as int, b) by {
                lemma_walk_add(es, e1 as int, a as nat, (d - a) as nat);
                lemma_walk_add(es, e1 as int, b as nat, (d - b) as nat);
                lemma_loop_distinct(es, e1 as int, d as int, a, b);
            }
            assert forall|a: int| 0 <= a < d implies 0 <= #[trigger] walk_at(es, e1 as int, a)
                < es.len() && walk(es, e1 as int, a as nat) == Option::<int>::Some(
                walk_at(es, e1 as int, a),
            ) by {
                lemma_walk_add(es, e1 as int, a as nat, (d - a) as nat);
                lemma_walk_in_bounds(es, e1 as int, a as nat, walk_at(es, e1 as int, a));
            }
            lemma_walk_add(es, e1 as int, 1, (d - 1) as nat);
            assert(self.edges@[e1 as int].next is Some);
        }
        let e1next: Handle = self.edges[e1].next.unwrap();
        proof {
            assert(walk(es, e1 as int, 1) == Option::<int>::Some(e1next.index as int));
            lemma_walk_add(es, e1 as int, (k + 1) as nat, (d - k - 1) as nat);
            assert(walk(es, e1 as int, (k + 1) as nat) is Some);
            assert(self.edges@[e2 as int].next is Some);
        }
        let e2next: Handle = self.edges[e2].next.unwrap();
        proof {
            assert(walk(es, e1 as int, (k + 1) as nat) == Option::<int>::Some(
                e2next.index as int,
            ));
        }
        let ghost pre = *self;
        let n: usize = self.edges.len();
        let f2: usize = self.facets.len();
        self.edges.push(
            HalfEdge {
                vertex: Some(v2),
                face: Some(f1h),
                opposite: Some(Handle { index: n + 1 }),
                next: Some(e2next),
                live: true,
            },
        );
        self.edges.push(
            HalfEdge {
                vertex: Some(v1),
                face: Some(Handle { index: f2 }),
                opposite: Some(Handle { index: n }),
                next: Some(e1next),
                live: true,
            },
        );
        self.edges[e1].next = Some(Handle { index: n });
        self.edges[e2].next = Some(Handle { index: n + 1 });
        self.facets[f1h.index].edge = Some(Handle { index: e1 });
        self.facets.push(Facet { edge: Some(Handle { index: e2 }), live: true });
        let ghost base = self.edges@;
        let ghost fsnap = self.facets@;
        let mut cur2: usize = e2next.index;
        let mut t: usize = k + 1;
        while t < d
            invariant
                self.facets@ == fsnap,
                self.vertices@ == pre.vertices@,
                k + 1 <= t <= d,
                cur2 < self.edges.len(),
                t < d ==> cur2 as int == walk_at(es, e1 as int, t as int),
                self.edges@.len() == base.len(),
                forall|i: int|
                    0 <= i < base.len() && !(exists|s: int|
                        k + 1 <= s < t && #[trigger] walk_at(es, e1 as int, s) == i)
                        ==> self.edges@[i] == #[trigger] base[i],
                forall|s: int|
                    k + 1 <= s < t ==> self.edges@[#[trigger] walk_at(es, e1 as int, s)]
                        == (HalfEdge {
                        vertex: base[walk_at(es, e1 as int, s)].vertex,
                        face: Some(f1h),
                        opposite: base[walk_at(es, e1 as int, s)].opposite,
                        next: base[walk_at(es, e1 as int, s)].next,
                        live: base[walk_at(es, e1 as int, s)].live,
                    }),
                forall|i: int|
                    0 <= i < base.len() ==> (#[trigger] self.edges@[i]).is_live()
                        == base[i].is_live(),
            decreases d - t,
        {
            proof {
                assert(walk(es, e1 as int, (t + 1) as nat) is Some) by {
                    lemma_walk_add(es, e1 as int, (t + 1) as nat, (d - t - 1) as nat);
                }
                assert(walk_at(es, e1 as int, 0) == e1 as int);
                assert(walk_at(es, e1 as int, k as int) == e2 as int);
                assert(cur2 as int != e1 as int && cur2 as int != e2 as int);
                assert(self.edges@[cur2 as int].next == es[cur2 as int].next);
                assert(es[cur2 as int].next is Some);
            }
            let nxt: usize = self.edges[cur2].next.unwrap().index;
            proof {
                assert(walk(es, e1 as int, (t + 1) as nat) == Option::<int>::Some(nxt as int));
            }
            self.edges[cur2].face = Some(f1h);
            cur2 = nxt;
            t = t + 1;
        }
        let ghost base2 = self.edges@;
        let mut cur3: usize = e1next.index;
        let mut u: usize = 1;
        while u <= k
            invariant
                self.facets@ == fsnap,
                self.vertices@ == pre.vertices@,
                1 <= u <= k + 1,
                cur3 < self.edges.len(),
                u <= k ==> cur3 as int == walk_at(es, e1 as int, u as int),
                self.edges@.len() == base2.len(),
                forall|i: int|
                    0 <= i < base2.len() && !(exists|s: int|
                        1 <= s < u && #[trigger] walk_at(es, e1 as int, s) == i)
                        ==> self.edges@[i] == #[trigger] base2[i],
                forall|s: int|
                    1 <= s < u ==> self.edges@[#[trigger] walk_at(es, e1 as int, s)] == (HalfEdge {
                        vertex: base2[walk_at(es, e1 as int, s)].vertex,
                        face: some_handle(f2 as int),
                        opposite: base2[walk_at(es, e1 as int, s)].opposite,
                        next: base2[walk_at(es, e1 as int, s)].next,
                        live: base2[walk_at(es, e1 as int, s)].live,
                    }),
                forall|i: int|
                    0 <= i < base2.len() ==> (#[trigger] self.edges@[i]).is_live()
                        == base2[i].is_live(),
            decreases k + 1 - u,
        {
            let s: usize = cur3;
            proof {
                assert(walk_at(es, e1 as int, 0) == e1 as int);
                assert(walk_at(es, e1 as int, k as int) == e2 as int);
                if u < k {
                    assert(s as int != e1 as int && s as int != e2 as int);
                    assert(base2[s as int] == base[s as int]) by {
                        if exists|w: int|
                            k + 1 <= w < d && #[trigger] walk_at(es, e1 as int, w) == s as int {
                            let w = choose|w: int|
                                k + 1 <= w < d && #[trigger] walk_at(es, e1 as int, w)
                                    == s as int;
                            assert(walk_at(es, e1 as int, u as int) != walk_at(
                                es,
                                e1 as int,
                                w,
                            ));
                        }
                    }
                    assert(base[s as int] == es[s as int]);
                    assert(walk(es, e1 as int, (u + 1) as nat) is Some) by {
                        lemma_walk_add(es, e1 as int, (u + 1) as nat, (d - u - 1) as nat);
                    }
                    assert(es[s as int].next is Some);
                    assert(self.edges@[s as int].next == es[s as int].next);
                } else {
                    assert(s as int == e2 as int);
                    assert(base2[s as int] == base[s as int]) by {
                        if exists|w: int|
                            k + 1 <= w < d && #[trigger] walk_at(es, e1 as int, w) == s as int {
                            let w = choose|w: int|
                                k + 1 <= w < d && #[trigger] walk_at(es, e1 as int, w)
                                    == s as int;
                            assert(walk_at(es, e1 as int, k as int) != walk_at(
                                es,
                                e1 as int,
                                w,
                            ));
                        }
                    }
                    assert(base[s as int].next == some_handle(n as int + 1));
                    assert(self.edges@[s as int].next is Some);
                }
            }
            let nxt: usize = self.edges[s].next.unwrap().index;
            self.edges[s].face = Some(Handle { index: f2 });
            cur3 = nxt;
            u = u + 1;
            proof {
                if u <= k {
                    assert(walk(es, e1 as int, u as nat) == Option::<int>::Some(nxt as int));
                }
            }
        }
        proof {
            assert(walk(es, e1 as int, 0) == Option::<int>::Some(e1 as int));
            assert(walk_at(es, e1 as int, 0) == e1 as int);
            assert(walk_at(es, e1 as int, k as int) == e2 as int);
            assert forall|i: int|
                0 <= i < self.edges@.len() implies (#[trigger] self.edges@[i]).is_live()
                == pre.edges@.push(base[n as int]).push(base[n as int + 1])[i].is_live() by {}
            lemma_live_count_agree(
                self.edges@,
                pre.edges@.push(base[n as int]).push(base[n as int + 1]),
                self.edges@.len() as int,
            );
            lemma_live_count_push(pre.edges@, base[n as int]);
            lemma_live_count_push(pre.edges@.push(base[n as int]), base[n as int + 1]);
            assert forall|i: int|
                0 <= i < self.facets@.len() implies (#[trigger] self.facets@[i]).is_live()
                == pre.facets@.push(Facet { edge: some_handle(e2 as int), live: true })[i].is_live() by {}
            lemma_live_count_agree(
                self.facets@,
                pre.facets@.push(Facet { edge: some_handle(e2 as int), live: true }),
                self.facets@.len() as int,
            );
            lemma_live_count_push(pre.facets@, Facet { edge: some_handle(e2 as int), live: true });
            assert(self.edges@[e1 as int] == base[e1 as int] && self.edges@[e2 as int] == (HalfEdge {
                vertex: base2[e2 as int].vertex,
                face: some_handle(f2 as int),
                opposite: base2[e2 as int].opposite,
                next: base2[e2 as int].next,
                live: base2[e2 as int].live,
            })) by {
                assert(walk_at(es, e1 as int, k as int) != walk_at(es, e1 as int, 0));
                if exists|s: int| k + 1 <= s < d && #[trigger] walk_at(es, e1 as int, s) == e1 as int {
                    let w = choose|s: int|
                        k + 1 <= s < d && #[trigger] walk_at(es, e1 as int, s) == e1 as int;
                    assert(walk_at(es, e1 as int, w) != walk_at(es, e1 as int, 0));
                }
                if exists|s: int| 1 <= s < k && #[trigger] walk_at(es, e1 as int, s) == e1 as int {
                    let w = choose|s: int|
                        1 <= s < k && #[trigger] walk_at(es, e1 as int, s) == e1 as int;
                    assert(walk_at(es, e1 as int, w) != walk_at(es, e1 as int, 0));
                }
            }
            assert(base2[e2 as int] == base[e2 as int]) by {
                if exists|s: int| k + 1 <= s < d && #[trigger] walk_at(es, e1 as int, s) == e2 as int {
                    let w = choose|s: int|
                        k + 1 <= s < d && #[trigger] walk_at(es, e1 as int, s) == e2 as int;
                    assert(walk_at(es, e1 as int, w) != walk_at(es, e1 as int, k as int));
                }
            }
            assert forall|j: int|
                1 <= j < k implies self.edges@[#[trigger] walk_at(es, e1 as int, j)] == (HalfEdge {
                vertex: es[walk_at(es, e1 as int, j)].vertex,
                face: some_handle(f2 as int),
                opposite: es[walk_at(es, e1 as int, j)].opposite,
                next: es[walk_at(es, e1 as int, j)].next,
                live: es[walk_at(es, e1 as int, j)].live,
            }) by {
                let slot = walk_at(es, e1 as int, j);
                assert(slot != e1 as int && slot != e2 as int);
                assert(base2[slot] == base[slot]) by {
                    if exists|s: int| k + 1 <= s < d && #[trigger] walk_at(es, e1 as int, s) == slot {
                        let w = choose|s: int|
                            k + 1 <= s < d && #[trigger] walk_at(es, e1 as int, s) == slot;
                        assert(walk_at(es, e1 as int, j) != walk_at(es, e1 as int, w));
                    }
                }
                assert(base[slot] == es[slot]);
            }
            assert forall|j: int|
                k < j < d implies self.edges@[#[trigger] walk_at(es, e1 as int, j)] == (HalfEdge {
                vertex: es[walk_at(es, e1 as int, j)].vertex,
                face: es[e1 as int].face,
                opposite: es[walk_at(es, e1 as int, j)].opposite,
                next: es[walk_at(es, e1 as int, j)].next,
                live: es[walk_at(es, e1 as int, j)].live,
            }) by {
                let slot = walk_at(es, e1 as int, j);
                assert(slot != e1 as int && slot != e2 as int);
                assert(self.edges@[slot] == base2[slot]) by {
                    if exists|s: int| 1 <= s < k + 1 && #[trigger] walk_at(es, e1 as int, s) == slot {
                        let w = choose|s: int|
                            1 <= s < k + 1 && #[trigger] walk_at(es, e1 as int, s) == slot;
                        assert(walk_at(es, e1 as int, j) != walk_at(es, e1 as int, w));
                    }
                }
                assert(base[slot] == es[slot]);
            }
            assert forall|i: int|
                0 <= i < n && !on_loop(es, e1 as int, d as int, i) implies self.edges@[i] == #[trigger] es[i] by {
                assert(walk(es, e1 as int, 0) == Option::<int>::Some(e1 as int));
                assert(i != e1 as int && i != e2 as int);
                assert(base[i] == es[i]);
                assert(base2[i] == base[i]) by {
                    if exists|s: int| k + 1 <= s < d && #[trigger] walk_at(es, e1 as int, s) == i {
                        let w = choose|s: int|
                            k + 1 <= s < d && #[trigger] walk_at(es, e1 as int, s) == i;
                        assert(walk(es, e1 as int, w as nat) == Option::<int>::Some(i));
                    }
                }
                assert(self.edges@[i] == base2[i]) by {
                    if exists|s: int| 1 <= s < k + 1 && #[trigger] walk_at(es, e1 as int, s) == i {
                        let w = choose|s: int|
                            1 <= s < k + 1 && #[trigger] walk_at(es, e1 as int, s) == i;
                        assert(walk(es, e1 as int, w as nat) == Option::<int>::Some(i));
                    }
                }
            }
            assert(split_facet_shape(pre, *self, e1 as int, e2 as int, d as int, k as int));
            assert forall|i: int| 0 <= i < self.edges@.len() implies self.edge_ok(
                #[trigger] self.edges@[i],
            ) by {
                if i < n {
                    assert(pre.edge_ok(pre.edges@[i]));
                    if on_loop(es, e1 as int, d as int, i) {
                        let j = choose|j: nat|
                            j < d && walk(es, e1 as int, j) == Option::<int>::Some(i);
                        assert(walk_at(es, e1 as int, j as int) == i);
                    }
                }
            }
            assert forall|i: int| 0 <= i < self.facets@.len() implies self.facet_ok(
                #[trigger] self.facets@[i],
            ) by {
                if i < f2 {
                    assert(pre.facet_ok(pre.facets@[i]));
                }
            }
            assert forall|i: int| 0 <= i < self.vertices@.len() implies self.vertex_ok(
                #[trigger] self.vertices@[i],
            ) by {
                assert(pre.vertex_ok(pre.vertices@[i]));
            }
        }
    }

    /// Replaces the facet bounded by `edge` with a fan of triangles around a
    /// new vertex placed at the centroid of the facet loop of `edge`.  The
    /// old facet is reused for the first triangle; each boundary edge gains
    /// a twin-paired spoke pair to and from the center.  Fails with
    /// `MissingAdjacency`, leaving the mesh unchanged, when a needed
    /// reference is absent or a loop never closes.
    #[verifier::loop_isolation(false)]
    #[verifier::rlimit(100)]
    pub fn create_center_vertex(&mut self, edge: Handle) -> (r: Result<(), MeshError>)
        requires
            old(self).wf(),
            old(self).valid_edge(edge),
            old(self).edges.len() * 3 <= ELEM_LIMIT,
            old(self).facets.len() + old(self).edges.len() <= ELEM_LIMIT,
            old(self).vertices.len() + 1 <= ELEM_LIMIT,
        ensures
            final(self).wf(),
            r is Ok <==> ccv_applicable(*old(self), edge.index as int),
            match r {
                Ok(_) => exists|d: int|
                    #[trigger]
                    is_loop(
                        old(self).edges@,
                        ref_index(
                            old(self).facets@[ref_index(
                                old(self).edges@[edge.index as int].face,
                            )].edge,
                        ),
                        d,
                    ) && {
                        &&& final(self).vertex_count() == old(self).vertex_count() + 1
                        &&& final(self).edge_count() == old(self).edge_count() + 2 * d
                        &&& final(self).facet_count() == old(self).facet_count() + (d - 1)
                        &&& ccv_shape(*old(self), *final(self), edge.index as int, d)
                    },
                Err(err) => *final(self) == *old(self) && err == MeshError::MissingAdjacency,
            },
    {
        let e: usize = edge.index;
        proof {
            self.lemma_wf_edges_closed();
        }
        let center: Pos2 = match self.get_center_position(edge) {
            Ok(c) => c,
            Err(err) => {
                return Err(err);
            },
        };
        let fh: Handle = match self.edges[e].face {
            Some(h) => h,
            None => {
                return Err(MeshError::MissingAdjacency);
            },
        };
        proof {
            assert(self.edge_ok(self.edges@[e as int]));
        }
        let s0h: Handle = match self.facets[fh.index].edge {
            Some(h) => h,
            None => {
                return Err(MeshError::MissingAdjacency);
            },
        };
        proof {
            assert(self.facet_ok(self.facets@[fh.index as int]));
        }
        let s0: usize = s0h.index;
        let d: usize = match self.loop_degree(s0) {
            Ok(d) => d,
            Err(err) => {
                proof {
                    assert(!self.loop_resolved(s0 as int));
                }
                return Err(err);
            },
        };
        let slots: Vec<usize> = self.loop_slots(s0, d);
        let ghost es = self.edges@;
        let mut vo: Vec<Handle> = Vec::new();
        let mut i: usize = 0;
        while i < d
            invariant
                i <= d,
                vo@.len() == i,
                forall|t: int|
                    0 <= t < i ==> self.edges@[#[trigger] slots@[t] as int].vertex == Some(
                        vo@[t],
                    ),
            decreases d - i,
        {
            let v: Handle = match self.edges[slots[i]].vertex {
                Some(h) => h,
                None => {
                    proof {
                        assert(self.loop_origin(s0 as int, i as nat) is None);
                        assert forall|dd: int|
                            1 <= dd <= self.edges@.len() && #[trigger] is_loop(
                                self.edges@,
                                s0 as int,
                                dd,
                            ) implies !self.origins_present(s0 as int, dd as nat) by {
                            lemma_loop_unique(self.edges@, s0 as int, dd, d as int);
                        }
                        assert(!self.loop_resolved(s0 as int));
                    }
                    return Err(MeshError::MissingAdjacency);
                },
            };
            vo.push(v);
            i = i + 1;
        }
        proof {
            assert forall|t: nat| t < d implies #[trigger] self.loop_origin(s0 as int, t)
                is Some by {
                assert(self.edges@[slots@[t as int] as int].vertex == Some(vo@[t as int]));
            }
            assert(self.origins_present(s0 as int, d as nat));
            assert(self.loop_resolved(s0 as int));
            assert(ccv_applicable(*self, e as int));
        }
        let ghost preg = *self;
        self.ccv_apply(e, center, fh, s0, d, &slots, &vo);
        proof {
            assert(is_loop(preg.edges@, s0 as int, d as int));
        }
        Ok(())
    }

    /// Performs the rewiring of `create_center_vertex` once its
    /// preconditions are established: `fh` is the facet of `e`, `s0` its
    /// boundary edge, `d` the facet degree from `s0`, `slots` the loop in
    /// walk order, `vo` the origin of each loop edge, and `center` the
    /// centroid of the loop of `e`.
    #[verifier::loop_isolation(false)]
    #[verifier::rlimit(100)]
    fn ccv_apply(
        &mut self,
        e: usize,
        center: Pos2,
        fh: Handle,
        s0: usize,
        d: usize,
        slots: &Vec<usize>,
        vo: &Vec<Handle>,
    )
        requires
            old(self).wf(),
            old(self).edges.len() * 3 <= ELEM_LIMIT,
            old(self).facets.len() + old(self).edges.len() <= ELEM_LIMIT,
            old(self).vertices.len() + 1 <= ELEM_LIMIT,
            e < old(self).edges.len(),
            old(self).edges@[e as int].face == Some(fh),
            fh.index < old(self).facets.len(),
            old(self).facets@[fh.index as int].edge == some_handle(s0 as int),
            s0 < old(self).edges.len(),
            is_loop(old(self).edges@, s0 as int, d as int),
            d <= old(self).edges@.len(),
            slots@.len() == d,
            forall|j: int|
                0 <= j < d ==> walk(old(self).edges@, s0 as int, j as nat) == Option::<int>::Some(
                    #[trigger] slots@[j] as int,
                ),
            forall|j: int| 0 <= j < d ==> (#[trigger] slots@[j]) < old(self).edges.len(),
            vo@.len() == d,
            forall|j: int|
                0 <= j < d ==> old(self).edges@[#[trigger] slots@[j] as int].vertex == Some(
                    vo@[j],
                ),
            center.bounded(),
            forall|de: int|
                #[trigger] is_loop(old(self).edges@, e as int, de) ==> {
                    &&& center.x as int == div_trunc(old(self).loop_sum_x(e as int, de as nat), de)
                    &&& center.y as int == div_trunc(old(self).loop_sum_y(e as int, de as nat), de)
                },
        ensures
            final(self).wf(),
            final(self).vertex_count() == old(self).vertex_count() + 1,
            final(self).edge_count() == old(self).edge_count() + 2 * d,
            final(self).facet_count() == old(self).facet_count() + (d - 1),
            ccv_shape(*old(self), *final(self), e as int, d as int),
    {
        let ghost pre = *self;
        let ghost es = self.edges@;
        proof {
            self.lemma_wf_edges_closed();
            assert forall|a: int, b: int| 0 <= a < b < d implies slots@[a] != slots@[b] by {
                lemma_loop_distinct(es, s0 as int, d as int, a, b);
            }
        }
        let n: usize = self.edges.len();
        let nf: usize = self.facets.len();
        let nv: usize = self.vertices.len();
        let mut i: usize = 1;
        while i < d
            invariant
                1 <= i <= d || (d == 0 && i == 1),
                d >= 1,
                self.edges@ == es,
                self.vertices@ == pre.vertices@,
                self.facets@.len() == nf + i - 1,
                forall|t: int| 0 <= t < nf ==> self.facets@[t] == #[trigger] pre.facets@[t],
                forall|t: int|
                    1 <= t < i ==> #[trigger] self.facets@[nf + t - 1] == (Facet {
                        edge: some_handle(slots@[t] as int),
                        live: true,
                    }),
                live_count(self.facets@, self.facets@.len() as int) == live_count(
                    pre.facets@,
                    nf as int,
                ) + i - 1,
            decreases d - i,
        {
            proof {
                lemma_live_count_push(
                    self.facets@,
                    Facet { edge: some_handle(slots@[i as int] as int), live: true },
                );
            }
            self.facets.push(Facet { edge: Some(Handle { index: slots[i] }), live: true });
            i = i + 1;
        }
        let mut i2: usize = 0;
        while i2 < d
            invariant
                i2 <= d,
                self.vertices@ == pre.vertices@,
                self.facets@.len() == nf + d - 1,
                forall|t: int| 0 <= t < nf ==> self.facets@[t] == #[trigger] pre.facets@[t],
                forall|t: int|
                    1 <= t < d ==> #[trigger] self.facets@[nf + t - 1] == (Facet {
                        edge: some_handle(slots@[t] as int),
                        live: true,
                    }),
                live_count(self.facets@, self.facets@.len() as int) == live_count(
                    pre.facets@,
                    nf as int,
                ) + d - 1,
                self.edges@.len() == n + 2 * i2,
                forall|t: int| 0 <= t < n ==> self.edges@[t] == #[trigger] es[t],
                forall|t: int|
                    0 <= t < i2 ==> #[trigger] self.edges@[n + 2 * t] == (HalfEdge {
                        vertex: some_handle(nv as int),
                        face: some_handle(
                            if t == 0 {
                                fh.index as int
                            } else {
                                nf + t - 1
                            },
                        ),
                        opposite: some_handle(n + 2 * t + 1),
                        next: some_handle(
                            if t == 0 {
                                n + 2 * (d as int) - 1
                            } else {
                                n + 2 * t - 1
                            },
                        ),
                        live: true,
                    }),
                forall|t: int|
                    0 <= t < i2 ==> #[trigger] self.edges@[n + 2 * t + 1] == (HalfEdge {
                        vertex: Some(vo@[t]),
                        face: some_handle(
                            if t == d - 1 {
                                fh.index as int
                            } else {
                                nf + t
                            },
                        ),
                        opposite: some_handle(n + 2 * t),
                        next: some_handle(
                            walk_at(
                                es,
                                s0 as int,
                                if t == d - 1 {
                                    0
                                } else {
                                    t + 1
                                },
                            ),
                        ),
                        live: true,
                    }),
                live_count(self.edges@, self.edges@.len() as int) == live_count(es, n as int) + 2
                    * i2,
            decreases d - i2,
        {
            let fi: usize = if i2 == 0 {
                fh.index
            } else {
                nf + i2 - 1
            };
            let fi1: usize = if i2 == d - 1 {
                fh.index
            } else {
                nf + i2
            };
            let prev_spoke: usize = if i2 == 0 {
                n + 2 * d - 1
            } else {
                n + 2 * i2 - 1
            };
            let bnext: usize = if i2 == d - 1 {
                slots[0]
            } else {
                slots[i2 + 1]
            };
            proof {
                lemma_live_count_push(
                    self.edges@,
                    HalfEdge {
                        vertex: some_handle(nv as int),
                        face: some_handle(fi as int),
                        opposite: some_handle(n + 2 * i2 + 1),
                        next: some_handle(prev_spoke as int),
                        live: true,
                    },
                );
            }
            self.edges.push(
                HalfEdge {
                    vertex: Some(Handle { index: nv }),
                    face: Some(Handle { index: fi }),
                    opposite: Some(Handle { index: n + 2 * i2 + 1 }),
                    next: Some(Handle { index: prev_spoke }),
                    live: true,
                },
            );
            proof {
                lemma_live_count_push(
                    self.edges@,
                    HalfEdge {
                        vertex: Some(vo@[i2 as int]),
                        face: some_handle(fi1 as int),
                        opposite: some_handle(n + 2 * i2),
                        next: some_handle(bnext as int),
                        live: true,
                    },
                );
                assert(walk_at(
                    es,
                    s0 as int,
                    if i2 == d - 1 {
                        0int
                    } else {
                        i2 as int + 1
                    },
                ) == bnext as int);
            }
            self.edges.push(
                HalfEdge {
                    vertex: Some(vo[i2]),
                    face: Some(Handle { index: fi1 }),
                    opposite: Some(Handle { index: n + 2 * i2 }),
                    next: Some(Handle { index: bnext }),
                    live: true,
                },
            );
            i2 = i2 + 1;
        }
        proof {
            lemma_live_count_push(
                self.vertices@,
                Vertex { position: center, edge: some_handle(n as int), live: true },
            );
        }
        self.vertices.push(Vertex { position: center, edge: Some(Handle { index: n }), live: true });
        let ghost base = self.edges@;
        let mut i3: usize = 0;
        while i3 < d
            invariant
                i3 <= d,
                self.vertices@ == pre.vertices@.push(
                    Vertex { position: center, edge: some_handle(n as int), live: true },
                ),
                self.facets@.len() == nf + d - 1,
                forall|t: int| 0 <= t < nf ==> self.facets@[t] == #[trigger] pre.facets@[t],
                forall|t: int|
                    1 <= t < d ==> #[trigger] self.facets@[nf + t - 1] == (Facet {
                        edge: some_handle(slots@[t] as int),
                        live: true,
                    }),
                live_count(self.facets@, self.facets@.len() as int) == live_count(
                    pre.facets@,
                    nf as int,
                ) + d - 1,
                self.edges@.len() == base.len(),
                forall|t: int|
                    0 <= t < i3 ==> self.edges@[#[trigger] slots@[t] as int] == (HalfEdge {
                        vertex: es[slots@[t] as int].vertex,
                        face: some_handle(
                            if t == 0 {
                                fh.index as int
                            } else {
                                nf + t - 1
                            },
                        ),
                        opposite: es[slots@[t] as int].opposite,
                        next: some_handle(n + 2 * t),
                        live: es[slots@[t] as int].live,
                    }),
                forall|j: int|
                    0 <= j < base.len() && !(exists|t: int| 0 <= t < i3 && #[trigger] slots@[t]
                        == j as usize) ==> self.edges@[j] == #[trigger] base[j],
                forall|j: int|
                    0 <= j < base.len() ==> (#[trigger] self.edges@[j]).is_live()
                        == base[j].is_live(),
            decreases d - i3,
        {
            let s: usize = slots[i3];
            let fi: usize = if i3 == 0 {
                fh.index
            } else {
                nf + i3 - 1
            };
            self.edges[s].next = Some(Handle { index: n + 2 * i3 });
            self.edges[s].face = Some(Handle { index: fi });
            i3 = i3 + 1;
        }
        proof {
            lemma_ccv_finish(pre, *self, base, e as int, center, fh, s0 as int, d as int, slots@, vo@);
        }
    }

    /// Removes `edge` and its twin, merging their two adjacent facets into
    /// one: the facet of `edge` is kept and takes over every edge of the
    /// twin's loop; the twin's facet and both half-edges are retired in
    /// place.  Fails with `MissingAdjacency` when a needed reference is
    /// absent or a loop never closes, with `PreconditionViolation` when the
    /// twin is the edge itself or the two facet loops share a slot, and with
    /// `IdentityNotFound` when the twin or the twin's facet is already
    /// retired; a failing call leaves the mesh unchanged.
    #[verifier::loop_isolation(false)]
    #[verifier::rlimit(100)]
    pub fn join_facet(&mut self, edge: Handle) -> (r: Result<(), MeshError>)
        requires
            old(self).wf(),
            old(self).valid_edge(edge),
        ensures
            final(self).wf(),
            r is Ok <==> join_facet_applicable(*old(self), edge.index as int),
            match r {
                Ok(_) => {
                    &&& final(self).vertex_count() == old(self).vertex_count()
                    &&& final(self).edge_count() == old(self).edge_count() - 2
                    &&& final(self).facet_count() == old(self).facet_count() - 1
                    &&& exists|de: int, do_: int|
                        #![trigger is_loop(old(self).edges@, edge.index as int, de), is_loop(old(self).edges@, ref_index(old(self).edges@[edge.index as int].opposite), do_)]
                        {
                            &&& is_loop(old(self).edges@, edge.index as int, de)
                            &&& is_loop(
                                old(self).edges@,
                                ref_index(old(self).edges@[edge.index as int].opposite),
                                do_,
                            )
                            &&& join_facet_shape(
                                *old(self),
                                *final(self),
                                edge.index as int,
                                de,
                                do_,
                            )
                        }
                },
                Err(err) => {
                    &&& *final(self) == *old(self)
                    &&& {
                        let es = old(self).edges@;
                        let a = edge.index as int;
                        let o = ref_index(es[a].opposite);
                        let of = ref_index(es[o].face);
                        if es[a].face is None || es[a].opposite is None {
                            err == MeshError::MissingAdjacency
                        } else if es[o].face is None {
                            err == MeshError::MissingAdjacency
                        } else if !has_loop(es, a) || !has_loop(es, o) {
                            err == MeshError::MissingAdjacency
                        } else if o == a || !loops_disjoint(es, a, o) {
                            err == MeshError::PreconditionViolation
                        } else {
                            err == MeshError::IdentityNotFound && !(es[o].live
                                && old(self).facets@[of].live)
                        }
                    }
                },
            },
    {
        let e: usize = edge.index;
        proof {
            self.lemma_wf_edges_closed();
        }
        let f: Handle = match self.edges[e].face {
            Some(h) => h,
            None => {
                return Err(MeshError::MissingAdjacency);
            },
        };
        let o: Handle = match self.edges[e].opposite {
            Some(h) => h,
            None => {
                return Err(MeshError::MissingAdjacency);
            },
        };
        let of: Handle = match self.edges[o.index].face {
            Some(h) => h,
            None => {
                return Err(MeshError::MissingAdjacency);
            },
        };
        let de: usize = match self.loop_degree(e) {
            Ok(d) => d,
            Err(err) => {
                return Err(err);
            },
        };
        let do_: usize = match self.loop_degree(o.index) {
            Ok(d) => d,
            Err(err) => {
                return Err(err);
            },
        };
        if o.index == e {
            return Err(MeshError::PreconditionViolation);
        }
        let ghost es = self.edges@;
        let e_slots: Vec<usize> = self.loop_slots(e, de);
        let o_slots: Vec<usize> = self.loop_slots(o.index, do_);
        let mut t: usize = 0;
        let mut overlap: bool = false;
        while t < do_
            invariant
                t <= do_,
                e_slots@.len() == de,
                o_slots@.len() == do_,
                overlap ==> exists|i: int, j: int|
                    0 <= i < de && 0 <= j < do_ && #[trigger] e_slots@[i] == #[trigger] o_slots@[j],
                !overlap ==> forall|i: int, j: int|
                    0 <= i < de && 0 <= j < t ==> #[trigger] e_slots@[i] != #[trigger] o_slots@[j],
            decreases do_ - t,
        {
            if slot_listed(&e_slots, o_slots[t]) {
                overlap = true;
            }
            t = t + 1;
        }
        if overlap {
            proof {
                let (i, j) = choose|i: int, j: int|
                    0 <= i < de && 0 <= j < do_ && #[trigger] e_slots@[i] == #[trigger] o_slots@[j];
                assert(walk(es, e as int, i as nat) == walk(es, o.index as int, j as nat));
                if loops_disjoint(es, e as int, o.index as int) {
                    let (d1, d2) = choose|d1: int, d2: int|
                        #![trigger is_loop(es, e as int, d1), is_loop(es, o.index as int, d2)]
                        {
                            &&& is_loop(es, e as int, d1)
                            &&& is_loop(es, o.index as int, d2)
                            &&& forall|x: nat, y: nat|
                                #![trigger walk(es, e as int, x), walk(es, o.index as int, y)]
                                x < d1 && y < d2 ==> walk(es, e as int, x) != walk(
                                    es,
                                    o.index as int,
                                    y,
                                )
                        };
                    lemma_loop_unique(es, e as int, d1, de as int);
                    lemma_loop_unique(es, o.index as int, d2, do_ as int);
                    assert(walk(es, e as int, i as nat) != walk(es, o.index as int, j as nat));
                }
            }
            return Err(MeshError::PreconditionViolation);
        }
        proof {
            assert forall|x: nat, y: nat|
                #![trigger walk(es, e as int, x), walk(es, o.index as int, y)]
                x < de && y < do_ implies walk(es, e as int, x) != walk(
                es,
                o.index as int,
                y,
            ) by {
                assert(e_slots@[x as int] != o_slots@[y as int]);
            }
            assert(loops_disjoint(es, e as int, o.index as int));
        }
        if !self.edges[o.index].live {
            return Err(MeshError::IdentityNotFound);
        }
        proof {
            assert(self.edge_ok(self.edges@[o.index as int]));
        }
        if !self.facets[of.index].live {
            return Err(MeshError::IdentityNotFound);
        }
        proof {
            assert(join_facet_applicable(*self, e as int));
        }
        let ghost preg = *self;
        self.join_facet_apply(e, o, of, f, de, do_, &e_slots, &o_slots);
        proof {
            assert(is_loop(preg.edges@, e as int, de as int));
            assert(is_loop(preg.edges@, o.index as int, do_ as int));
        }
        Ok(())
    }

    /// Performs the rewiring of `join_facet` once its preconditions are
    /// established: `o` is the twin of `e`, `f` and `of` the two facets,
    /// `de` and `do_` the two facet degrees, and the slot lists walk the two
    /// disjoint facet loops.
    #[verifier::loop_isolation(false)]
    #[verifier::rlimit(100)]
    fn join_facet_apply(
        &mut self,
        e: usize,
        o: Handle,
        of: Handle,
        f: Handle,
        de: usize,
        do_: usize,
        e_slots: &Vec<usize>,
        o_slots: &Vec<usize>,
    )
        requires
            old(self).wf(),
            e < old(self).edges.len(),
            o.index < old(self).edges.len(),
            o.index != e,
            old(self).edges@[e as int].live,
            old(self).edges@[o.index as int].live,
            old(self).edges@[e as int].face == Some(f),
            old(self).edges@[e as int].opposite == Some(o),
            old(self).edges@[o.index as int].face == Some(of),
            of.index < old(self).facets.len(),
            old(self).facets@[of.index as int].live,
            is_loop(old(self).edges@, e as int, de as int),
            is_loop(old(self).edges@, o.index as int, do_ as int),
            e_slots@.len() == de,
            o_slots@.len() == do_,
            forall|j: int|
                0 <= j < de ==> walk(old(self).edges@, e as int, j as nat) == Option::<int>::Some(
                    #[trigger] e_slots@[j] as int,
                ),
            forall|j: int|
                0 <= j < do_ ==> walk(old(self).edges@, o.index as int, j as nat)
                    == Option::<int>::Some(#[trigger] o_slots@[j] as int),
            forall|j: int| 0 <= j < de ==> (#[trigger] e_slots@[j]) < old(self).edges.len(),
            forall|j: int| 0 <= j < do_ ==> (#[trigger] o_slots@[j]) < old(self).edges.len(),
            forall|x: nat, y: nat|
                #![trigger walk(old(self).edges@, e as int, x), walk(old(self).edges@, o.index as int, y)]
                x < de && y < do_ ==> walk(old(self).edges@, e as int, x) != walk(
                    old(self).edges@,
                    o.index as int,
                    y,
                ),
        ensures
            final(self).wf(),
            final(self).vertex_count() == old(self).vertex_count(),
            final(self).edge_count() == old(self).edge_count() - 2,
            final(self).facet_count() == old(self).facet_count() - 1,
            join_facet_shape(*old(self), *final(self), e as int, de as int, do_ as int),
    {
        let ghost es = self.edges@;
        proof {
            self.lemma_wf_edges_closed();
            assert forall|a: int, b: int| 0 <= a < b < do_ implies o_slots@[a] != o_slots@[b] by {
                lemma_loop_distinct(es, o.index as int, do_ as int, a, b);
            }
            if de > 1 {
                lemma_loop_distinct(es, e as int, de as int, 0, de - 1);
            }
        }
        let pe: usize = e_slots[de - 1];
        let po: usize = o_slots[do_ - 1];
        let ghost pre = *self;
        let mut t2: usize = 0;
        while t2 < do_
            invariant
                self.facets@ == pre.facets@,
                self.vertices@ == pre.vertices@,
                t2 <= do_,
                o_slots@.len() == do_,
                self.edges@.len() == es.len(),
                forall|j: int|
                    0 <= j < t2 ==> self.edges@[#[trigger] o_slots@[j] as int] == (HalfEdge {
                        vertex: es[o_slots@[j] as int].vertex,
                        face: Some(f),
                        opposite: es[o_slots@[j] as int].opposite,
                        next: es[o_slots@[j] as int].next,
                        live: es[o_slots@[j] as int].live,
                    }),
                forall|i: int|
                    0 <= i < es.len() && !(exists|j: int| 0 <= j < t2 && #[trigger] o_slots@[j]
                        == i as usize) ==> self.edges@[i] == #[trigger] es[i],
            decreases do_ - t2,
        {
            let s: usize = o_slots[t2];
            self.edges[s].face = Some(f);
            t2 = t2 + 1;
        }
        proof {
            lemma_walk_add(es, o.index as int, 1, (do_ - 1) as nat);
            assert(walk(es, o.index as int, 0) == Option::<int>::Some(o.index as int));
            assert(walk(es, o.index as int, do_ as nat) == Option::<int>::Some(o.index as int));
            assert(walk(es, o.index as int, 1) is Some);
            assert(es[o.index as int].next is Some);
            assert(self.edges@[o.index as int].next == es[o.index as int].next);
        }
        let onext: Handle = self.edges[o.index].next.unwrap();
        self.edges[pe].next = Some(onext);
        proof {
            lemma_walk_add(es, e as int, 1, (de - 1) as nat);
            assert(walk(es, e as int, 0) == Option::<int>::Some(e as int));
            assert(walk(es, e as int, de as nat) == Option::<int>::Some(e as int));
            assert(walk(es, e as int, 1) is Some);
            assert(es[e as int].next is Some);
            assert(self.edges@[e as int].next is Some);
        }
        let enext: Handle = self.edges[e].next.unwrap();
        self.edges[po].next = Some(enext);
        proof {
            assert(pre.edge_ok(pre.edges@[e as int]));
            assert(pre.edge_ok(pre.edges@[o.index as int]));
        }
        if f.index != of.index {
            let stale: bool = match self.facets[f.index].edge {
                Some(h) => h.index == e || h.index == o.index,
                None => false,
            };
            if stale {
                if de > 1 {
                    self.facets[f.index].edge = Some(enext);
                } else if do_ > 1 {
                    self.facets[f.index].edge = Some(onext);
                } else {
                    self.facets[f.index].edge = None;
                }
            }
        }
        let ghost mid = self.edges@;
        let ghost fsmid = self.facets@;
        self.edges[e].live = false;
        self.edges[o.index].live = false;
        self.facets[of.index].live = false;
        proof {
            assert forall|i: int|
                0 <= i < es.len() implies (#[trigger] mid[i]).is_live() == es[i].is_live() by {}
            lemma_live_count_agree(mid, es, es.len() as int);
            lemma_live_count_update(mid, es.len() as int, e as int, self.edges@[e as int]);
            lemma_live_count_update(
                mid.update(e as int, self.edges@[e as int]),
                es.len() as int,
                o.index as int,
                self.edges@[o.index as int],
            );
            assert forall|i: int|
                0 <= i < pre.facets@.len() implies (#[trigger] fsmid[i]).is_live()
                == pre.facets@[i].is_live() by {}
            lemma_live_count_agree(fsmid, pre.facets@, pre.facets@.len() as int);
            lemma_live_count_update(
                fsmid,
                pre.facets@.len() as int,
                of.index as int,
                self.facets@[of.index as int],
            );
            assert(join_facet_shape(pre, *self, e as int, de as int, do_ as int)) by {
                assert(walk_at(es, e as int, 0) == e as int);
                assert(walk_at(es, o.index as int, 0) == o.index as int);
                assert(walk_at(es, e as int, de - 1) == pe as int);
                assert(walk_at(es, o.index as int, do_ - 1) == po as int);
                assert(e_slots@[0] == e);
                assert(o_slots@[0] == o.index);
                assert(e_slots@[de - 1] == pe);
                assert(o_slots@[do_ - 1] == po);
                assert forall|j: int| 0 <= j < do_ implies #[trigger] o_slots@[j] != e by {
                    assert(walk(es, e as int, 0) == Option::<int>::Some(e as int));
                    assert(walk(es, o.index as int, j as nat) == Option::<int>::Some(
                        o_slots@[j] as int,
                    ));
                }
                assert forall|j: int| 0 <= j < do_ && de > 1 implies #[trigger] o_slots@[j]
                    != pe by {
                    assert(walk(es, e as int, (de - 1) as nat) == Option::<int>::Some(pe as int));
                    assert(walk(es, o.index as int, j as nat) == Option::<int>::Some(
                        o_slots@[j] as int,
                    ));
                }
                assert forall|j: int|
                    1 <= j < do_ - 1 implies self.edges@[#[trigger] walk_at(es, o.index as int, j)]
                    == (HalfEdge {
                    vertex: es[walk_at(es, o.index as int, j)].vertex,
                    face: Some(f),
                    opposite: es[walk_at(es, o.index as int, j)].opposite,
                    next: es[walk_at(es, o.index as int, j)].next,
                    live: es[walk_at(es, o.index as int, j)].live,
                }) by {
                    assert(o_slots@[j] as int == walk_at(es, o.index as int, j));
                    assert(o_slots@[j] != o_slots@[0] && o_slots@[j] != o_slots@[do_ - 1]);
                    assert(e_slots@[0] != o_slots@[j]);
                    if de > 1 {
                        assert(e_slots@[de - 1] != o_slots@[j]);
                    }
                }
                assert forall|i: int|
                    0 <= i < es.len() && i != e as int && i != pe as int && !on_loop(
                        es,
                        o.index as int,
                        do_ as int,
                        i,
                    ) implies self.edges@[i] == #[trigger] es[i] by {
                    assert forall|j: int| 0 <= j < do_ implies #[trigger] o_slots@[j]
                        != i as usize by {
                        if o_slots@[j] == i as usize {
                            assert(walk(es, o.index as int, j as nat) == Option::<int>::Some(i));
                        }
                    }
                    assert(walk(es, o.index as int, 0) == Option::<int>::Some(o.index as int));
                }
            }
            assert forall|i: int| 0 <= i < self.edges@.len() implies self.edge_ok(
                #[trigger] self.edges@[i],
            ) by {
                assert(pre.edge_ok(pre.edges@[i]));
            }
            assert forall|i: int| 0 <= i < self.facets@.len() implies self.facet_ok(
                #[trigger] self.facets@[i],
            ) by {
                assert(pre.facet_ok(pre.facets@[i]));
            }
            assert forall|i: int| 0 <= i < self.vertices@.len() implies self.vertex_ok(
                #[trigger] self.vertices@[i],
            ) by {
                assert(pre.vertex_ok(pre.vertices@[i]));
            }
        }
    }

    /// Removes the interior hub vertex at the origin of `edge`, its spokes
    /// and their twins, re-merging the surrounding triangle fan into the
    /// single facet of `edge`: the hub, its `d` spoke pairs and `d - 1`
    /// facets are retired in place, `d` being the hub degree.  Fails, with
    /// the mesh unchanged, with `MissingAdjacency` when a facet, origin or
    /// triangle-loop reference does not resolve, with `BorderElement` when
    /// the hub's fan does not resolve, with `PreconditionViolation` when the
    /// fan's elements are not pairwise distinct or a triangle degenerates,
    /// and with `IdentityNotFound` when an element to retire is already
    /// retired.
    #[verifier::loop_isolation(false)]
    #[verifier::rlimit(100)]
    pub fn erase_center_vertex(&mut self, edge: Handle) -> (r: Result<(), MeshError>)
        requires
            old(self).wf(),
            old(self).valid_edge(edge),
        ensures
            final(self).wf(),
            r is Ok <==> ecv_applicable(*old(self), edge.index as int),
            match r {
                Ok(_) => {
                    let es = old(self).edges@;
                    let hub = ref_index(es[edge.index as int].vertex);
                    let hs = ref_index(old(self).vertices@[hub].edge);
                    &&& exists|d: int|
                        #[trigger] is_fan_loop(es, hs, d) && {
                            &&& final(self).vertex_count() == old(self).vertex_count() - 1
                            &&& final(self).edge_count() == old(self).edge_count() - 2 * d
                            &&& final(self).facet_count() == old(self).facet_count() - (d - 1)
                        }
                    &&& !final(self).vertices@[hub].live
                    &&& !final(self).edges@[edge.index as int].live
                },
                Err(err) => {
                    &&& *final(self) == *old(self)
                    &&& {
                        let es = old(self).edges@;
                        let a = edge.index as int;
                        let hub = ref_index(es[a].vertex);
                        let hs = ref_index(old(self).vertices@[hub].edge);
                        if es[a].face is None || es[a].vertex is None {
                            err == MeshError::MissingAdjacency
                        } else if old(self).vertices@[hub].edge is None {
                            err == MeshError::MissingAdjacency
                        } else if !has_fan_loop(es, hs) {
                            err == MeshError::BorderElement
                        } else if !(exists|d: int|
                            #[trigger] is_fan_loop(es, hs, d) && ecv_fan_defined(
                                *old(self),
                                a,
                                d,
                            )) {
                            err == MeshError::BorderElement
                        } else if !(exists|d: int|
                            #[trigger] is_fan_loop(es, hs, d) && ecv_adjacent(*old(self), a, d)) {
                            err == MeshError::MissingAdjacency
                        } else if !(exists|d: int|
                            #[trigger] is_fan_loop(es, hs, d) && ecv_distinct(*old(self), a, d)) {
                            err == MeshError::PreconditionViolation
                        } else {
                            err == MeshError::IdentityNotFound && !(exists|d: int|
                                #[trigger] is_fan_loop(es, hs, d) && ecv_live(*old(self), a, d))
                        }
                    }
                },
            },
    {
        let e: usize = edge.index;
        proof {
            self.lemma_wf_edges_closed();
        }
        let f: Handle = match self.edges[e].face {
            Some(h) => h,
            None => {
                return Err(MeshError::MissingAdjacency);
            },
        };
        let hub: Handle = match self.edges[e].vertex {
            Some(h) => h,
            None => {
                return Err(MeshError::MissingAdjacency);
            },
        };
        proof {
            assert(self.edge_ok(self.edges@[e as int]));
            assert(self.vertex_ok(self.vertices@[hub.index as int]));
        }
        let hubv: Vertex = self.vertices[hub.index];
        let d: usize = match hubv.degree(self) {
            Ok(d) => d,
            Err(err) => {
                proof {
                    assert(self.vertices@[hub.index as int] == hubv);
                }
                return Err(err);
            },
        };
        let ghost es = self.edges@;
        let ghost hs = ref_index(hubv.edge);
        proof {
            assert(self.vertices@[hub.index as int] == hubv);
            assert(is_fan_loop(es, hs, d as int));
            assert forall|dd: int| #[trigger] is_fan_loop(es, hs, dd) implies dd == d as int by {
                lemma_fan_loop_unique(es, hs, dd, d as int);
            }
        }
        let mut spokes: Vec<usize> = Vec::new();
        let mut rims: Vec<usize> = Vec::new();
        let mut cur: usize = e;
        let mut i: usize = 0;
        while i < d
            invariant
                i <= d,
                cur < self.edges.len(),
                fan_walk(es, e as int, i as nat) == Option::<int>::Some(cur as int),
                spokes@.len() == i,
                rims@.len() == i,
                forall|t: int|
                    0 <= t < i ==> (#[trigger] spokes@[t]) as int == fan_at(es, e as int, t)
                        && spokes@[t] < self.edges.len(),
                forall|t: int|
                    0 <= t < i ==> (#[trigger] rims@[t]) as int == ecv_rim(es, e as int, t)
                        && rims@[t] < self.edges.len(),
                forall|t: int| 0 <= t <= i ==> #[trigger] fan_walk(es, e as int, t as nat) is Some,
            decreases d - i,
        {
            spokes.push(cur);
            let nxt: usize = match self.edges[cur].next {
                Some(h) => h.index,
                None => {
                    proof {
                        assert(fan_walk(es, e as int, (i + 1) as nat) is None);
                        assert(!ecv_fan_defined(*self, e as int, d as int));
                        assert(!ecv_applicable(*self, e as int));
                    }
                    return Err(MeshError::BorderElement);
                },
            };
            proof {
                assert(next_index(es, cur as int) == Option::<int>::Some(nxt as int));
                assert(self.edge_ok(self.edges@[nxt as int]));
            }
            rims.push(nxt);
            let stepo: usize = match self.edges[nxt].opposite {
                Some(h) => h.index,
                None => {
                    proof {
                        assert(fan_index(es, cur as int) is None);
                        assert(fan_walk(es, e as int, (i + 1) as nat) is None);
                        assert(!ecv_fan_defined(*self, e as int, d as int));
                        assert(!ecv_applicable(*self, e as int));
                    }
                    return Err(MeshError::BorderElement);
                },
            };
            proof {
                assert(fan_index(es, cur as int) == Option::<int>::Some(stepo as int));
                assert(fan_walk(es, e as int, (i + 1) as nat) == Option::<int>::Some(
                    stepo as int,
                ));
            }
            cur = stepo;
            i = i + 1;
        }
        proof {
            assert(ecv_fan_defined(*self, e as int, d as int));
        }
        let mut fcs: Vec<usize> = Vec::new();
        let mut tgts: Vec<usize> = Vec::new();
        let mut prevs: Vec<usize> = Vec::new();
        let mut rel: Vec<usize> = Vec::new();
        let ghost mut ms: Seq<int> = Seq::empty();
        let mut i2: usize = 0;
        while i2 < d
            invariant
                i2 <= d,
                fcs@.len() == i2,
                tgts@.len() == i2,
                prevs@.len() == i2,
                forall|t: int|
                    0 <= t < i2 ==> {
                        &&& es[#[trigger] fan_at(es, e as int, t)].face is Some
                        &&& fcs@[t] as int == ref_index(es[fan_at(es, e as int, t)].face)
                        &&& fcs@[t] < self.facets.len()
                        &&& es[fan_at(es, e as int, t)].opposite is Some
                        &&& es[ref_index(es[fan_at(es, e as int, t)].opposite)].next is Some
                    },
                ms.len() == i2,
                forall|t: int|
                    #![trigger fan_at(es, e as int, t)]
                    0 <= t < i2 ==> 1 <= ms[t] <= es.len() + 1 && walk(
                        es,
                        ecv_rim(es, e as int, t),
                        ms[t] as nat,
                    ) == Option::<int>::Some(fan_at(es, e as int, t)),
                forall|t: int| 0 <= t < i2 ==> (#[trigger] tgts@[t]) < self.edges.len(),
                forall|t: int| 0 <= t < i2 ==> (#[trigger] prevs@[t]) < self.edges.len(),
                forall|t: int| 0 <= t < rel@.len() ==> (#[trigger] rel@[t]) < self.edges.len(),
            decreases d - i2,
        {
            let sp: usize = spokes[i2];
            let rm: usize = rims[i2];
            proof {
                assert(sp as int == fan_at(es, e as int, i2 as int));
                assert(rm as int == ecv_rim(es, e as int, i2 as int));
            }
            let fc: Handle = match self.edges[sp].face {
                Some(h) => h,
                None => {
                    proof {
                        assert(!ecv_adjacent(*self, e as int, d as int));
                        assert(!ecv_applicable(*self, e as int));
                    }
                    return Err(MeshError::MissingAdjacency);
                },
            };
            fcs.push(fc.index);
            let opp: Handle = match self.edges[sp].opposite {
                Some(h) => h,
                None => {
                    proof {
                        assert(!ecv_adjacent(*self, e as int, d as int));
                        assert(!ecv_applicable(*self, e as int));
                    }
                    return Err(MeshError::MissingAdjacency);
                },
            };
            proof {
                assert(self.edge_ok(self.edges@[opp.index as int]));
            }
            let tg: Handle = match self.edges[opp.index].next {
                Some(h) => h,
                None => {
                    proof {
                        assert(!ecv_adjacent(*self, e as int, d as int));
                        assert(!ecv_applicable(*self, e as int));
                    }
                    return Err(MeshError::MissingAdjacency);
                },
            };
            tgts.push(tg.index);
            let mut wcur: usize = rm;
            let mut t: usize = 1;
            let mut found: bool = false;
            let mut prev: usize = 0;
            let ghost mut mfound: int = 0;
            while t <= self.edges.len() + 1 && !found
                invariant
                    1 <= t <= self.edges.len() + 2,
                    wcur < self.edges.len(),
                    !found ==> walk(es, rm as int, (t - 1) as nat) == Option::<int>::Some(
                        wcur as int,
                    ),
                    !found ==> forall|s: int|
                        1 <= s < t ==> #[trigger] walk(es, rm as int, s as nat)
                            != Option::<int>::Some(sp as int),
                    found ==> 1 <= mfound <= es.len() + 1 && walk(es, rm as int, mfound as nat)
                        == Option::<int>::Some(sp as int),
                    found ==> prev < self.edges.len(),
                    forall|q: int| 0 <= q < rel@.len() ==> (#[trigger] rel@[q]) < self.edges.len(),
                decreases
                        self.edges.len() + 2 - t,
                        (if found {
                            0int
                        } else {
                            1int
                        }),
            {
                if t >= 2 {
                    rel.push(wcur);
                }
                let wn: usize = match self.edges[wcur].next {
                    Some(h) => h.index,
                    None => {
                        proof {
                            assert(walk(es, rm as int, t as nat) is None);
                            assert forall|m: int|
                                1 <= m <= es.len() + 1 implies #[trigger] walk(
                                es,
                                rm as int,
                                m as nat,
                            ) != Option::<int>::Some(sp as int) by {
                                if m >= t {
                                    lemma_walk_none_persists(es, rm as int, t as nat, m as nat);
                                }
                            }
                            assert(rm as int == ecv_rim(es, e as int, i2 as int));
                            assert(sp as int == fan_at(es, e as int, i2 as int));
                            assert(!ecv_adjacent(*self, e as int, d as int));
                            assert(!ecv_applicable(*self, e as int));
                        }
                        return Err(MeshError::MissingAdjacency);
                    },
                };
                proof {
                    assert(walk(es, rm as int, t as nat) == Option::<int>::Some(wn as int));
                    assert(self.edge_ok(self.edges@[wn as int]));
                }
                if wn == sp {
                    prev = wcur;
                    found = true;
                    proof {
                        mfound = t as int;
                        assert(1 <= mfound <= es.len() + 1);
                        assert(walk(es, rm as int, mfound as nat) == Option::<int>::Some(
                            sp as int,
                        ));
                    }
                } else {
                    wcur = wn;
                    t = t + 1;
                }
            }
            if !found {
                proof {
                    assert forall|m: int|
                        1 <= m <= es.len() + 1 implies #[trigger] walk(es, rm as int, m as nat)
                        != Option::<int>::Some(sp as int) by {
                        assert(walk(es, rm as int, m as nat) != Option::<int>::Some(sp as int));
                    }
                    assert(rm as int == ecv_rim(es, e as int, i2 as int));
                    assert(sp as int == fan_at(es, e as int, i2 as int));
                    assert(!ecv_adjacent(*self, e as int, d as int));
                    assert(!ecv_applicable(*self, e as int));
                }
                return Err(MeshError::MissingAdjacency);
            }
            prevs.push(prev);
            proof {
                ms = ms.push(mfound);
                assert(1 <= mfound <= es.len() + 1);
                assert(walk(es, ecv_rim(es, e as int, i2 as int), mfound as nat)
                    == Option::<int>::Some(fan_at(es, e as int, i2 as int)));
            }
            i2 = i2 + 1;
        }
        proof {
            assert forall|i: int|
                0 <= i < d implies {
                &&& es[#[trigger] fan_at(es, e as int, i)].face is Some
                &&& es[fan_at(es, e as int, i)].opposite is Some
                &&& es[ref_index(es[fan_at(es, e as int, i)].opposite)].next is Some
                &&& exists|m: int|
                    1 <= m <= es.len() + 1 && #[trigger] walk(es, ecv_rim(es, e as int, i), m as nat)
                        == Option::<int>::Some(fan_at(es, e as int, i))
            } by {
                assert(1 <= ms[i] <= es.len() + 1 && walk(es, ecv_rim(es, e as int, i), ms[i] as nat)
                    == Option::<int>::Some(fan_at(es, e as int, i)));
            }
            assert(ecv_adjacent(*self, e as int, d as int));
        }
        let mut i3: usize = 0;
        while i3 < d
            invariant
                i3 <= d,
                forall|t: int|
                    0 <= t < i3 ==> ref_index(es[#[trigger] ecv_rim(es, e as int, t)].next)
                        != fan_at(es, e as int, t),
            decreases d - i3,
        {
            let rm: usize = rims[i3];
            let sp: usize = spokes[i3];
            proof {
                assert(es[rm as int].next is Some) by {
                    let m = choose|m: int|
                        1 <= m <= es.len() + 1 && #[trigger] walk(es, rm as int, m as nat)
                            == Option::<int>::Some(sp as int);
                    if walk(es, rm as int, 1) is None {
                        lemma_walk_none_persists(es, rm as int, 1, m as nat);
                    }
                    assert(walk(es, rm as int, 0) == Option::<int>::Some(rm as int));
                }
            }
            let rn: usize = self.edges[rm].next.unwrap().index;
            if rn == sp {
                proof {
                    assert(ref_index(es[ecv_rim(es, e as int, i3 as int)].next) == rn as int);
                    assert(!ecv_distinct(*self, e as int, d as int));
                    assert(!ecv_applicable(*self, e as int));
                }
                return Err(MeshError::PreconditionViolation);
            }
            i3 = i3 + 1;
        }
        let mut kill: Vec<usize> = Vec::new();
        let mut i4: usize = 0;
        while i4 < d
            invariant
                i4 <= d,
                kill@.len() == 2 * i4,
                forall|t: int|
                    0 <= t < i4 ==> (#[trigger] kill@[2 * t]) as int == fan_at(es, e as int, t)
                        && kill@[2 * t + 1] as int == ecv_rim(es, e as int, t),
                forall|a: int, b: int| 0 <= a < b < kill@.len() ==> kill@[a] != kill@[b],
                forall|j: int| 0 <= j < kill@.len() ==> (#[trigger] kill@[j]) < self.edges.len(),
            decreases d - i4,
        {
            if slot_listed(&kill, spokes[i4]) {
                proof {
                    let j = choose|j: int|
                        0 <= j < kill@.len() && #[trigger] kill@[j] == spokes@[i4 as int];
                    let t = j / 2;
                    assert(j == 2 * t || j == 2 * t + 1);
                    assert(0 <= t < i4 as int);
                    assert(kill@[2 * t] as int == fan_at(es, e as int, t));
                    if j == 2 * t {
                        assert(fan_at(es, e as int, t) == fan_at(es, e as int, i4 as int));
                    } else {
                        assert(ecv_rim(es, e as int, t) == fan_at(es, e as int, i4 as int));
                    }
                    assert(!ecv_distinct(*self, e as int, d as int));
                    assert(!ecv_applicable(*self, e as int));
                }
                return Err(MeshError::PreconditionViolation);
            }
            kill.push(spokes[i4]);
            if slot_listed(&kill, rims[i4]) {
                proof {
                    let j = choose|j: int|
                        0 <= j < kill@.len() && #[trigger] kill@[j] == rims@[i4 as int];
                    let t = j / 2;
                    assert(j == 2 * t || j == 2 * t + 1);
                    assert(t <= i4 as int);
                    assert(kill@[2 * t] as int == fan_at(es, e as int, t));
                    if j == 2 * t {
                        assert(fan_at(es, e as int, t) == ecv_rim(es, e as int, i4 as int));
                    } else {
                        assert(ecv_rim(es, e as int, t) == ecv_rim(es, e as int, i4 as int));
                    }
                    assert(!ecv_distinct(*self, e as int, d as int));
                    assert(!ecv_applicable(*self, e as int));
                }
                return Err(MeshError::PreconditionViolation);
            }
            let ghost kb = kill@;
            kill.push(rims[i4]);
            proof {
                assert forall|t: int|
                    0 <= t < i4 + 1 implies (#[trigger] kill@[2 * t]) as int == fan_at(
                    es,
                    e as int,
                    t,
                ) && kill@[2 * t + 1] as int == ecv_rim(es, e as int, t) by {
                    if t < i4 {
                        assert(kb[2 * t] as int == fan_at(es, e as int, t));
                        assert(kb[2 * t + 1] as int == ecv_rim(es, e as int, t));
                    } else {
                        assert(spokes@[t] as int == fan_at(es, e as int, t));
                        assert(rims@[t] as int == ecv_rim(es, e as int, t));
                    }
                }
            }
            i4 = i4 + 1;
        }
        let mut face_kill: Vec<usize> = Vec::new();
        let mut i5: usize = 1;
        while i5 < d
            invariant
                1 <= i5 <= d || (d == 0 && i5 == 1),
                face_kill@.len() == i5 - 1,
                forall|t: int|
                    1 <= t < i5 ==> (#[trigger] face_kill@[t - 1]) as int == ref_index(
                        es[fan_at(es, e as int, t)].face,
                    ),
                forall|a: int, b: int|
                    0 <= a < b < face_kill@.len() ==> face_kill@[a] != face_kill@[b],
                forall|j: int|
                    0 <= j < face_kill@.len() ==> (#[trigger] face_kill@[j]) < self.facets.len(),
                forall|j: int| 0 <= j < face_kill@.len() ==> (#[trigger] face_kill@[j]) != f.index,
            decreases d - i5,
        {
            if fcs[i5] == f.index {
                proof {
                    assert(ref_index(es[fan_at(es, e as int, i5 as int)].face) == ref_index(
                        es[e as int].face,
                    ));
                    assert(!ecv_distinct(*self, e as int, d as int));
                    assert(!ecv_applicable(*self, e as int));
                }
                return Err(MeshError::PreconditionViolation);
            }
            if slot_listed(&face_kill, fcs[i5]) {
                proof {
                    let j = choose|j: int|
                        0 <= j < face_kill@.len() && #[trigger] face_kill@[j] == fcs@[i5 as int];
                    assert(ref_index(es[fan_at(es, e as int, j + 1)].face) == ref_index(
                        es[fan_at(es, e as int, i5 as int)].face,
                    ));
                    assert(!ecv_distinct(*self, e as int, d as int));
                    assert(!ecv_applicable(*self, e as int));
                }
                return Err(MeshError::PreconditionViolation);
            }
            face_kill.push(fcs[i5]);
            i5 = i5 + 1;
        }
        proof {
            assert forall|a: int, b: int|
                0 <= a < b < d implies #[trigger] fan_at(es, e as int, a) != #[trigger] fan_at(
                es,
                e as int,
                b,
            ) by {
                assert(kill@[2 * a] as int == fan_at(es, e as int, a));
                assert(kill@[2 * b] as int == fan_at(es, e as int, b));
                assert(kill@[2 * a] != kill@[2 * b]);
            }
            assert forall|a: int, b: int|
                0 <= a < b < d implies #[trigger] ecv_rim(es, e as int, a) != #[trigger] ecv_rim(
                es,
                e as int,
                b,
            ) by {
                assert(kill@[2 * a] as int == fan_at(es, e as int, a));
                assert(kill@[2 * b] as int == fan_at(es, e as int, b));
                assert(kill@[2 * a + 1] != kill@[2 * b + 1]);
            }
            assert forall|a: int, b: int|
                0 <= a < d && 0 <= b < d implies #[trigger] fan_at(es, e as int, a)
                != #[trigger] ecv_rim(es, e as int, b) by {
                assert(kill@[2 * a] as int == fan_at(es, e as int, a));
                assert(kill@[2 * b] as int == fan_at(es, e as int, b));
                if 2 * a < 2 * b + 1 {
                    assert(kill@[2 * a] != kill@[2 * b + 1]);
                } else {
                    assert(kill@[2 * b + 1] != kill@[2 * a]);
                }
            }
            assert forall|a: int, b: int|
                1 <= a < b < d implies ref_index(es[#[trigger] fan_at(es, e as int, a)].face)
                != ref_index(es[#[trigger] fan_at(es, e as int, b)].face) by {
                assert(face_kill@[a - 1] != face_kill@[b - 1]);
            }
            assert forall|a: int|
                1 <= a < d implies ref_index(es[#[trigger] fan_at(es, e as int, a)].face)
                != ref_index(es[e as int].face) by {
                assert(face_kill@[a - 1] != f.index);
            }
            assert(ecv_distinct(*self, e as int, d as int));
        }
        let mut i6: usize = 0;
        while i6 < 2 * d
            invariant
                i6 <= 2 * d,
                kill@.len() == 2 * d,
                forall|j: int| 0 <= j < i6 ==> es[#[trigger] kill@[j] as int].live,
            decreases 2 * d - i6,
        {
            if !self.edges[kill[i6]].live {
                proof {
                    let t = i6 as int / 2;
                    assert(i6 as int == 2 * t || i6 as int == 2 * t + 1);
                    assert(kill@[2 * t] as int == fan_at(es, e as int, t));
                    if i6 as int == 2 * t {
                        assert(!es[fan_at(es, e as int, t)].live);
                    } else {
                        assert(!es[ecv_rim(es, e as int, t)].live);
                    }
                    assert(!ecv_live(*self, e as int, d as int));
                    assert(!ecv_applicable(*self, e as int));
                }
                return Err(MeshError::IdentityNotFound);
            }
            i6 = i6 + 1;
        }
        let mut i7: usize = 1;
        while i7 < d
            invariant
                1 <= i7 <= d || (d == 0 && i7 == 1),
                face_kill@.len() == d - 1,
                forall|t: int|
                    1 <= t < i7 ==> self.facets@[ref_index(
                        es[#[trigger] fan_at(es, e as int, t)].face,
                    )].live,
            decreases d - i7,
        {
            if !self.facets[face_kill[i7 - 1]].live {
                proof {
                    assert(!self.facets@[ref_index(es[fan_at(es, e as int, i7 as int)].face)].live);
                    assert(!ecv_live(*self, e as int, d as int));
                    assert(!ecv_applicable(*self, e as int));
                }
                return Err(MeshError::IdentityNotFound);
            }
            i7 = i7 + 1;
        }
        if !self.vertices[hub.index].live {
            proof {
                assert(!ecv_live(*self, e as int, d as int));
                assert(!ecv_applicable(*self, e as int));
            }
            return Err(MeshError::IdentityNotFound);
        }
        proof {
            assert forall|t: int| 0 <= t < kill@.len() implies es[#[trigger] kill@[t] as int].live by {}
            assert forall|i: int|
                0 <= i < d implies es[#[trigger] fan_at(es, e as int, i)].live && es[ecv_rim(
                es,
                e as int,
                i,
            )].live by {
                assert(kill@[2 * i] as int == fan_at(es, e as int, i));
                assert(kill@[2 * i + 1] as int == ecv_rim(es, e as int, i));
                assert(es[kill@[2 * i] as int].live);
                assert(es[kill@[2 * i + 1] as int].live);
            }
            assert(ecv_live(*self, e as int, d as int));
            assert(ecv_applicable(*self, e as int));
            assert(kill@[2 * 0int] as int == fan_at(es, e as int, 0));
            assert(fan_walk(es, e as int, 0) == Option::<int>::Some(e as int));
            assert(kill@[0] == e);
            assert forall|j: int| 0 <= j < face_kill@.len() implies self.facets@[#[trigger] face_kill@[j] as int].live by {
                assert(self.facets@[ref_index(es[fan_at(es, e as int, j + 1)].face)].live);
            }
        }
        let ghost preg = *self;
        self.ecv_apply(e, f, hub, d, &kill, &face_kill, &rel, &prevs, &tgts);
        proof {
            assert(is_fan_loop(preg.edges@, hs, d as int));
        }
        Ok(())
    }

    /// Performs the rewiring of `erase_center_vertex` once its preconditions
    /// are established: `f` is the kept facet and `hub` the retiring origin,
    /// `kill` the `2·d` spoke-pair slots, `face_kill` the `d − 1` retiring
    /// facets, `rel` the rim-loop slots relabelled to the kept facet, and
    /// `prevs`/`tgts` the splice sources and targets.
    #[verifier::loop_isolation(false)]
    #[verifier::rlimit(100)]
    fn ecv_apply(
        &mut self,
        e: usize,
        f: Handle,
        hub: Handle,
        d: usize,
        kill: &Vec<usize>,
        face_kill: &Vec<usize>,
        rel: &Vec<usize>,
        prevs: &Vec<usize>,
        tgts: &Vec<usize>,
    )
        requires
            old(self).wf(),
            e < old(self).edges.len(),
            f.index < old(self).facets.len(),
            hub.index < old(self).vertices.len(),
            old(self).vertices@[hub.index as int].live,
            d >= 1,
            kill@.len() == 2 * d,
            kill@[0] == e,
            forall|j: int| 0 <= j < kill@.len() ==> (#[trigger] kill@[j]) < old(self).edges.len(),
            forall|a: int, b: int| 0 <= a < b < kill@.len() ==> kill@[a] != kill@[b],
            forall|j: int|
                0 <= j < kill@.len() ==> old(self).edges@[#[trigger] kill@[j] as int].live,
            face_kill@.len() == d - 1,
            forall|j: int|
                0 <= j < face_kill@.len() ==> (#[trigger] face_kill@[j]) < old(self).facets.len(),
            forall|a: int, b: int|
                0 <= a < b < face_kill@.len() ==> face_kill@[a] != face_kill@[b],
            forall|j: int|
                0 <= j < face_kill@.len() ==> old(self).facets@[#[trigger] face_kill@[j] as int].live,
            forall|j: int| 0 <= j < rel@.len() ==> (#[trigger] rel@[j]) < old(self).edges.len(),
            prevs@.len() == d,
            tgts@.len() == d,
            forall|j: int| 0 <= j < prevs@.len() ==> (#[trigger] prevs@[j]) < old(self).edges.len(),
            forall|j: int| 0 <= j < tgts@.len() ==> (#[trigger] tgts@[j]) < old(self).edges.len(),
        ensures
            final(self).wf(),
            final(self).vertex_count() == old(self).vertex_count() - 1,
            final(self).edge_count() == old(self).edge_count() - 2 * d,
            final(self).facet_count() == old(self).facet_count() - (d - 1),
            !final(self).vertices@[hub.index as int].live,
            !final(self).edges@[e as int].live,
    {
        let ghost pre = *self;
        let ghost base = self.edges@;
        let prev0: usize = prevs[0];
        let mut t2: usize = 0;
        while t2 < rel.len()
            invariant
                t2 <= rel@.len(),
                self.vertices@ == pre.vertices@,
                self.facets@ == pre.facets@,
                self.edges@.len() == base.len(),
                forall|j: int|
                    0 <= j < base.len() ==> (#[trigger] self.edges@[j]).is_live()
                        == base[j].is_live(),
                forall|j: int| 0 <= j < self.edges@.len() ==> self.edge_ok(#[trigger] self.edges@[j]),
            decreases rel@.len() - t2,
        {
            let s: usize = rel[t2];
            self.edges[s].face = Some(f);
            t2 = t2 + 1;
        }
        let mut t3: usize = 0;
        while t3 < d
            invariant
                t3 <= d,
                self.vertices@ == pre.vertices@,
                self.facets@ == pre.facets@,
                self.edges@.len() == base.len(),
                forall|j: int|
                    0 <= j < base.len() ==> (#[trigger] self.edges@[j]).is_live()
                        == base[j].is_live(),
                forall|j: int| 0 <= j < self.edges@.len() ==> self.edge_ok(#[trigger] self.edges@[j]),
            decreases d - t3,
        {
            let pidx: usize = prevs[t3];
            let tgt: usize = tgts[t3];
            self.edges[pidx].next = Some(Handle { index: tgt });
            t3 = t3 + 1;
        }
        self.facets[f.index].edge = Some(Handle { index: prev0 });
        proof {
            lemma_live_count_agree(self.edges@, pre.edges@, pre.edges@.len() as int);
            lemma_live_count_agree(self.facets@, pre.facets@, pre.facets@.len() as int);
            assert forall|j: int| 0 <= j < self.facets@.len() implies self.facet_ok(
                #[trigger] self.facets@[j],
            ) by {
                assert(pre.facet_ok(pre.facets@[j]));
            }
            assert forall|j: int| 0 <= j < self.vertices@.len() implies self.vertex_ok(
                #[trigger] self.vertices@[j],
            ) by {
                assert(pre.vertex_ok(pre.vertices@[j]));
            }
            assert(self.wf());
        }
        self.retire_edges(kill);
        self.retire_facets(face_kill);
        proof {
            lemma_live_count_update(
                self.vertices@,
                self.vertices@.len() as int,
                hub.index as int,
                Vertex {
                    position: pre.vertices@[hub.index as int].position,
                    edge: pre.vertices@[hub.index as int].edge,
                    live: false,
                },
            );
        }
        self.vertices[hub.index].live = false;
        proof {
            assert(!self.edges@[e as int].live) by {
                assert(kill@[0] == e);
            }
            assert forall|j: int| 0 <= j < self.vertices@.len() implies self.vertex_ok(
                #[trigger] self.vertices@[j],
            ) by {
                assert(pre.vertex_ok(pre.vertices@[j]));
            }
        }
    }

    /// Splits the shared origin of `edge1` and `edge2` in two: a new vertex
    /// at the same position takes over the incident edges from just after
    /// `edge1` around to `edge2`, and a new twin-paired edge pair is spliced
    /// in after each of the two edges.  Fails with `MissingAdjacency` when a
    /// needed reference is absent, with `PreconditionViolation` when the
    /// edges do not share an origin or are one edge, and with
    /// `BorderElement` when the fan walk between them does not resolve; a
    /// failing call leaves the mesh unchanged.
    #[verifier::loop_isolation(false)]
    #[verifier::rlimit(100)]
    pub fn split_vertex(&mut self, edge1: Handle, edge2: Handle) -> (r: Result<(), MeshError>)
        requires
            old(self).wf(),
            old(self).valid_edge(edge1),
            old(self).valid_edge(edge2),
            old(self).edges.len() + 2 <= ELEM_LIMIT,
            old(self).vertices.len() + 1 <= ELEM_LIMIT,
        ensures
            final(self).wf(),
            r is Ok <==> split_vertex_applicable(
                *old(self),
                edge1.index as int,
                edge2.index as int,
            ),
            match r {
                Ok(_) => {
                    &&& final(self).vertex_count() == old(self).vertex_count() + 1
                    &&& final(self).edge_count() == old(self).edge_count() + 2
                    &&& final(self).facet_count() == old(self).facet_count()
                    &&& exists|k: int|
                        #[trigger] is_fan_path(
                            old(self).edges@,
                            edge1.index as int,
                            edge2.index as int,
                            k,
                        ) && split_vertex_shape(
                            *old(self),
                            *final(self),
                            edge1.index as int,
                            edge2.index as int,
                            k,
                        )
                },
                Err(err) => {
                    &&& *final(self) == *old(self)
                    &&& {
                        let es = old(self).edges@;
                        let a = edge1.index as int;
                        let b = edge2.index as int;
                        if es[a].vertex is None || es[b].vertex is None {
                            err == MeshError::MissingAdjacency
                        } else if es[a].vertex != es[b].vertex || a == b {
                            err == MeshError::PreconditionViolation
                        } else if es[a].face is None || es[b].face is None || es[a].next is None
                            || es[b].next is None {
                            err == MeshError::MissingAdjacency
                        } else {
                            err == MeshError::BorderElement && !has_fan_path(es, a, b)
                        }
                    }
                },
            },
    {
        let e1: usize = edge1.index;
        let e2: usize = edge2.index;
        proof {
            self.lemma_wf_edges_closed();
        }
        let v1: Handle = match self.edges[e1].vertex {
            Some(h) => h,
            None => {
                return Err(MeshError::MissingAdjacency);
            },
        };
        let v2: Handle = match self.edges[e2].vertex {
            Some(h) => h,
            None => {
                return Err(MeshError::MissingAdjacency);
            },
        };
        if v1.index != v2.index || e1 == e2 {
            return Err(MeshError::PreconditionViolation);
        }
        let f1: Handle = match self.edges[e1].face {
            Some(h) => h,
            None => {
                return Err(MeshError::MissingAdjacency);
            },
        };
        let f2: Handle = match self.edges[e2].face {
            Some(h) => h,
            None => {
                return Err(MeshError::MissingAdjacency);
            },
        };
        let e1n: Handle = match self.edges[e1].next {
            Some(h) => h,
            None => {
                return Err(MeshError::MissingAdjacency);
            },
        };
        let e2n: Handle = match self.edges[e2].next {
            Some(h) => h,
            None => {
                return Err(MeshError::MissingAdjacency);
            },
        };
        let ghost es = self.edges@;
        let mut path: Vec<usize> = Vec::new();
        let mut cur: usize = e1;
        let mut t: usize = 0;
        let mut kk: usize = 0;
        while t < self.edges.len() && kk == 0
            invariant
                t <= self.edges.len(),
                cur < self.edges.len(),
                kk == 0 ==> fan_walk(es, e1 as int, t as nat) == Option::<int>::Some(cur as int),
                kk == 0 ==> path@.len() == t,
                kk == 0 ==> forall|s: nat|
                    1 <= s <= t ==> #[trigger] fan_walk(es, e1 as int, s) != Option::<int>::Some(
                        e2 as int,
                    ),
                kk != 0 ==> 1 <= kk <= t && kk == t && fan_walk(es, e1 as int, kk as nat)
                    == Option::<int>::Some(e2 as int) && path@.len() == kk - 1,
                kk != 0 ==> forall|s: nat|
                    1 <= s < kk ==> #[trigger] fan_walk(es, e1 as int, s) != Option::<int>::Some(
                        e2 as int,
                    ),
                forall|s: int|
                    0 <= s < path@.len() ==> fan_walk(es, e1 as int, (s + 1) as nat)
                        == Option::<int>::Some(#[trigger] path@[s] as int),
                forall|s: int| 0 <= s < path@.len() ==> (#[trigger] path@[s]) < self.edges.len(),
            decreases self.edges.len() - t,
        {
            let stop: bool = match self.edges[cur].next {
                None => true,
                Some(nh) => match self.edges[nh.index].opposite {
                    None => true,
                    Some(oh) => {
                        proof {
                            assert(next_index(es, cur as int) == Option::<int>::Some(
                                nh.index as int,
                            ));
                            assert(fan_index(es, cur as int) == Option::<int>::Some(
                                oh.index as int,
                            ));
                            assert(fan_walk(es, e1 as int, (t + 1) as nat) == Option::<int>::Some(
                                oh.index as int,
                            ));
                        }
                        cur = oh.index;
                        t = t + 1;
                        if cur == e2 {
                            kk = t;
                        } else {
                            path.push(cur);
                        }
                        false
                    },
                },
            };
            if stop {
                proof {
                    assert(fan_walk(es, e1 as int, (t + 1) as nat) is None);
                    assert forall|k: int|
                        1 <= k <= es.len() implies !is_fan_path(
                        es,
                        e1 as int,
                        e2 as int,
                        k,
                    ) by {
                        if k > t {
                            lemma_fan_walk_none_persists(
                                es,
                                e1 as int,
                                (t + 1) as nat,
                                k as nat,
                            );
                        }
                    }
                    assert(!has_fan_path(es, e1 as int, e2 as int));
                }
                return Err(MeshError::BorderElement);
            }
        }
        if kk == 0 {
            proof {
                assert forall|k: int|
                    1 <= k <= es.len() implies !is_fan_path(es, e1 as int, e2 as int, k) by {
                    assert(fan_walk(es, e1 as int, k as nat) != Option::<int>::Some(e2 as int));
                }
                assert(!has_fan_path(es, e1 as int, e2 as int));
            }
            return Err(MeshError::BorderElement);
        }
        let k: usize = kk;
        proof {
            assert(is_fan_path(es, e1 as int, e2 as int, k as int));
            assert(has_fan_path(es, e1 as int, e2 as int));
            assert(split_vertex_applicable(*self, e1 as int, e2 as int));
            assert forall|s: int| 0 <= s < path@.len() implies #[trigger] path@[s] != e1
                && path@[s] != e2 && path@[s] as int == fan_at(es, e1 as int, s + 1) by {
                lemma_fan_path_distinct(es, e1 as int, e2 as int, k as int, 0, s + 1);
                assert(fan_walk(es, e1 as int, (s + 1) as nat) != Option::<int>::Some(e2 as int));
            }
            assert(self.edge_ok(self.edges@[e1 as int]));
        }
        let ghost pre = *self;
        let nv: usize = self.vertices.len();
        let n: usize = self.edges.len();
        let pos = self.vertices[v1.index].position;
        proof {
            lemma_live_count_push(
                self.vertices@,
                Vertex { position: pos, edge: some_handle(e2 as int), live: true },
            );
        }
        self.vertices.push(Vertex { position: pos, edge: Some(Handle { index: e2 }), live: true });
        proof {
            lemma_live_count_push(
                self.edges@,
                HalfEdge {
                    vertex: some_handle(nv as int),
                    face: Some(f1),
                    opposite: some_handle(n as int + 1),
                    next: Some(e1n),
                    live: true,
                },
            );
        }
        self.edges.push(
            HalfEdge {
                vertex: Some(Handle { index: nv }),
                face: Some(f1),
                opposite: Some(Handle { index: n + 1 }),
                next: Some(e1n),
                live: true,
            },
        );
        proof {
            lemma_live_count_push(
                self.edges@,
                HalfEdge {
                    vertex: Some(v1),
                    face: Some(f2),
                    opposite: some_handle(n as int),
                    next: Some(e2n),
                    live: true,
                },
            );
        }
        self.edges.push(
            HalfEdge {
                vertex: Some(v1),
                face: Some(f2),
                opposite: Some(Handle { index: n }),
                next: Some(e2n),
                live: true,
            },
        );
        let ghost base = self.edges@;
        let mut t3: usize = 0;
        while t3 < path.len()
            invariant
                t3 <= path@.len(),
                self.vertices@ == pre.vertices@.push(
                    Vertex { position: pos, edge: some_handle(e2 as int), live: true },
                ),
                self.facets@ == pre.facets@,
                self.edges@.len() == base.len(),
                forall|s: int| 0 <= s < path@.len() ==> (#[trigger] path@[s]) < n,
                forall|s: int|
                    0 <= s < t3 ==> self.edges@[#[trigger] path@[s] as int] == (HalfEdge {
                        vertex: some_handle(nv as int),
                        face: es[path@[s] as int].face,
                        opposite: es[path@[s] as int].opposite,
                        next: es[path@[s] as int].next,
                        live: es[path@[s] as int].live,
                    }),
                forall|i: int|
                    0 <= i < base.len() && !(exists|s: int| 0 <= s < t3 && #[trigger] path@[s]
                        == i as usize) ==> self.edges@[i] == #[trigger] base[i],
                forall|i: int|
                    0 <= i < base.len() ==> (#[trigger] self.edges@[i]).is_live()
                        == base[i].is_live(),
            decreases path@.len() - t3,
        {
            let s: usize = path[t3];
            self.edges[s].vertex = Some(Handle { index: nv });
            t3 = t3 + 1;
        }
        self.edges[e1].next = Some(Handle { index: n });
        self.edges[e2].next = Some(Handle { index: n + 1 });
        self.edges[e2].vertex = Some(Handle { index: nv });
        proof {
            assert forall|i: int|
                0 <= i < self.edges@.len() implies (#[trigger] self.edges@[i]).is_live()
                == base[i].is_live() by {}
            lemma_live_count_agree(self.edges@, base, base.len() as int);
            assert(split_vertex_shape(pre, *self, e1 as int, e2 as int, k as int)) by {
                assert forall|t4: int|
                    1 <= t4 < k implies self.edges@[#[trigger] fan_at(es, e1 as int, t4)]
                    == (HalfEdge {
                    vertex: some_handle(nv as int),
                    face: es[fan_at(es, e1 as int, t4)].face,
                    opposite: es[fan_at(es, e1 as int, t4)].opposite,
                    next: es[fan_at(es, e1 as int, t4)].next,
                    live: es[fan_at(es, e1 as int, t4)].live,
                }) by {
                    assert(fan_walk(es, e1 as int, t4 as nat) == Option::<int>::Some(
                        path@[t4 - 1] as int,
                    ));
                    assert(path@[t4 - 1] as int == fan_at(es, e1 as int, t4));
                }
                assert forall|i: int|
                    0 <= i < n && i != e1 as int && i != e2 as int && !(exists|t4: int|
                        1 <= t4 < k && #[trigger] fan_at(es, e1 as int, t4) == i) implies
                    self.edges@[i] == #[trigger] es[i] by {
                    assert forall|s: int| 0 <= s < path@.len() implies #[trigger] path@[s]
                        != i as usize by {
                        if path@[s] == i as usize {
                            assert(fan_at(es, e1 as int, s + 1) == i);
                        }
                    }
                }
            }
            assert forall|i: int| 0 <= i < self.edges@.len() implies self.edge_ok(
                #[trigger] self.edges@[i],
            ) by {
                if i < n {
                    assert(pre.edge_ok(pre.edges@[i]));
                }
            }
            assert forall|i: int| 0 <= i < self.facets@.len() implies self.facet_ok(
                #[trigger] self.facets@[i],
            ) by {
                assert(pre.facet_ok(pre.facets@[i]));
            }
            assert forall|i: int| 0 <= i < self.vertices@.len() implies self.vertex_ok(
                #[trigger] self.vertices@[i],
            ) by {
                if i < nv {
                    assert(pre.vertex_ok(pre.vertices@[i]));
                }
            }
        }
        Ok(())
    }

    /// Merges the origin of `edge` and the origin of its twin into one
    /// vertex at their midpoint: every edge of the discarded origin's fan is
    /// re-aimed at the kept vertex, both facets are re-anchored past the
    /// removed pair, and the pair and the discarded vertex are retired in
    /// place.  A kept vertex whose outgoing edge is one of the removed pair
    /// is re-anchored on the predecessor of `edge`, which now leaves it, or
    /// cleared where that predecessor is itself removed.  Fails with
    /// `MissingAdjacency` when a needed reference is
    /// absent or a facet loop never closes, with `PreconditionViolation`
    /// when the twin is the edge itself or the two origins are one vertex,
    /// with `BorderElement` when the twin's fan does not reach the
    /// predecessor of `edge`, and with `IdentityNotFound` when the twin or
    /// its origin is already retired; a failing call leaves the mesh
    /// unchanged.
    #[verifier::loop_isolation(false)]
    #[verifier::rlimit(100)]
    #[verifier::spinoff_prover]
    pub fn join_vertex(&mut self, edge: Handle) -> (r: Result<(), MeshError>)
        requires
            old(self).wf(),
            old(self).valid_edge(edge),
        ensures
            final(self).wf(),
            r is Ok <==> join_vertex_applicable(*old(self), edge.index as int),
            match r {
                Ok(_) => {
                    let es = old(self).edges@;
                    let a = edge.index as int;
                    let o = ref_index(es[a].opposite);
                    let v = ref_index(es[a].vertex);
                    let ov = ref_index(es[o].vertex);
                    let f = ref_index(es[a].face);
                    let of = ref_index(es[o].face);
                    &&& final(self).vertex_count() == old(self).vertex_count() - 1
                    &&& final(self).edge_count() == old(self).edge_count() - 2
                    &&& final(self).facet_count() == old(self).facet_count()
                    &&& final(self).vertices@.len() == old(self).vertices@.len()
                    &&& final(self).edges@.len() == old(self).edges@.len()
                    &&& final(self).facets@.len() == old(self).facets@.len()
                    &&& final(self).vertices@[v].position == (Pos2 {
                        x: (div_trunc(
                            old(self).vertices@[v].position.x + old(
                                self,
                            ).vertices@[ov].position.x,
                            2,
                        )) as i64,
                        y: (div_trunc(
                            old(self).vertices@[v].position.y + old(
                                self,
                            ).vertices@[ov].position.y,
                            2,
                        )) as i64,
                    })
                    &&& final(self).vertices@[v].live == old(self).vertices@[v].live
                    &&& exists|de: int, do_: int, k: int|
                        #![trigger join_vertex_rewired(*old(self), *final(self), edge.index as int, de, do_, k)]
                        {
                            &&& is_loop(es, a, de)
                            &&& is_loop(es, o, do_)
                            &&& 0 <= k
                            &&& (if walk_at(es, a, de - 1) == o {
                                k == 0
                            } else {
                                is_fan_path(es, o, walk_at(es, a, de - 1), k)
                            })
                            &&& join_vertex_rewired(*old(self), *final(self), a, de, do_, k)
                            &&& final(self).vertices@[v].edge == (if old(self).vertices@[v].edge
                                == some_handle(a) || old(self).vertices@[v].edge == some_handle(
                                o,
                            ) {
                                if walk_at(es, a, de - 1) != a && walk_at(es, a, de - 1) != o {
                                    some_handle(walk_at(es, a, de - 1))
                                } else {
                                    None
                                }
                            } else {
                                old(self).vertices@[v].edge
                            })
                        }
                    &&& old(self).vertices@[v].position == old(self).vertices@[ov].position
                        ==> final(self).vertices@[v].position == old(self).vertices@[v].position
                    &&& final(self).vertices@[ov] == (Vertex {
                        position: old(self).vertices@[ov].position,
                        edge: old(self).vertices@[ov].edge,
                        live: false,
                    })
                    &&& forall|i: int|
                        0 <= i < old(self).vertices@.len() && i != v && i != ov ==> final(self).vertices@[i] == #[trigger] old(self).vertices@[i]
                    &&& !final(self).edges@[a].live
                    &&& !final(self).edges@[o].live
                    &&& forall|i: int|
                        0 <= i < old(self).edges@.len() && i != a && i != o ==> (#[trigger] final(self).edges@[i]).live == old(self).edges@[i].live
                    &&& final(self).facets@[of].edge == es[o].next
                    &&& f != of ==> final(self).facets@[f].edge == es[a].next
                    &&& forall|i: int|
                        0 <= i < old(self).facets@.len() ==> (#[trigger] final(self).facets@[i]).live == old(self).facets@[i].live
                    &&& forall|i: int|
                        0 <= i < old(self).facets@.len() && i != f && i != of ==> final(self).facets@[i] == #[trigger] old(self).facets@[i]
                },
                Err(err) => {
                    &&& *final(self) == *old(self)
                    &&& {
                        let es = old(self).edges@;
                        let a = edge.index as int;
                        let o = ref_index(es[a].opposite);
                        let ov = ref_index(es[o].vertex);
                        if es[a].opposite is None || es[a].vertex is None || es[o].vertex
                            is None {
                            err == MeshError::MissingAdjacency
                        } else if es[a].face is None || es[o].face is None || es[a].next is None
                            || es[o].next is None {
                            err == MeshError::MissingAdjacency
                        } else if !has_loop(es, a) || !has_loop(es, o) {
                            err == MeshError::MissingAdjacency
                        } else if o == a || ref_index(es[a].vertex) == ov {
                            err == MeshError::PreconditionViolation
                        } else if !(exists|de: int|
                            #[trigger] is_loop(es, a, de) && {
                                let pe = walk_at(es, a, de - 1);
                                pe == o || has_fan_path(es, o, pe)
                            }) {
                            err == MeshError::BorderElement
                        } else {
                            err == MeshError::IdentityNotFound && !(es[o].live && old(
                                self,
                            ).vertices@[ov].live)
                        }
                    }
                },
            },
    {
        let e: usize = edge.index;
        proof {
            self.lemma_wf_edges_closed();
        }
        let o: Handle = match self.edges[e].opposite {
            Some(h) => h,
            None => {
                return Err(MeshError::MissingAdjacency);
            },
        };
        let v: Handle = match self.edges[e].vertex {
            Some(h) => h,
            None => {
                return Err(MeshError::MissingAdjacency);
            },
        };
        proof {
            assert(self.edge_ok(self.edges@[e as int]));
        }
        let ov: Handle = match self.edges[o.index].vertex {
            Some(h) => h,
            None => {
                return Err(MeshError::MissingAdjacency);
            },
        };
        let f: Handle = match self.edges[e].face {
            Some(h) => h,
            None => {
                return Err(MeshError::MissingAdjacency);
            },
        };
        let of: Handle = match self.edges[o.index].face {
            Some(h) => h,
            None => {
                return Err(MeshError::MissingAdjacency);
            },
        };
        let en: Handle = match self.edges[e].next {
            Some(h) => h,
            None => {
                return Err(MeshError::MissingAdjacency);
            },
        };
        let on: Handle = match self.edges[o.index].next {
            Some(h) => h,
            None => {
                return Err(MeshError::MissingAdjacency);
            },
        };
        let de: usize = match self.loop_degree(e) {
            Ok(d) => d,
            Err(err) => {
                return Err(err);
            },
        };
        let do_: usize = match self.loop_degree(o.index) {
            Ok(d) => d,
            Err(err) => {
                return Err(err);
            },
        };
        if o.index == e || v.index == ov.index {
            return Err(MeshError::PreconditionViolation);
        }
        let ghost es = self.edges@;
        let e_slots: Vec<usize> = self.loop_slots(e, de);
        let o_slots: Vec<usize> = self.loop_slots(o.index, do_);
        let pe: usize = e_slots[de - 1];
        let po: usize = o_slots[do_ - 1];
        proof {
            assert(walk_at(es, e as int, de - 1) == pe as int);
            assert forall|dd: int| #[trigger] is_loop(es, e as int, dd) implies dd == de as int by {
                lemma_loop_unique(es, e as int, dd, de as int);
            }
        }
        let mut path: Vec<usize> = Vec::new();
        let mut cur: usize = o.index;
        let mut t: usize = 0;
        let mut found: bool = false;
        while t < self.edges.len() && !found
            invariant
                t <= self.edges.len(),
                cur < self.edges.len(),
                !found ==> fan_walk(es, o.index as int, t as nat) == Option::<int>::Some(
                    cur as int,
                ),
                !found ==> path@.len() == t,
                path@.len() <= self.edges.len(),
                !found ==> forall|s: nat|
                    s < t ==> #[trigger] fan_walk(es, o.index as int, s) != Option::<int>::Some(
                        pe as int,
                    ),
                found ==> fan_walk(es, o.index as int, (path@.len()) as nat)
                    == Option::<int>::Some(pe as int),
                found ==> forall|s: nat|
                    s < path@.len() ==> #[trigger] fan_walk(es, o.index as int, s)
                        != Option::<int>::Some(pe as int),
                forall|s: int|
                    0 <= s < path@.len() ==> fan_walk(es, o.index as int, s as nat)
                        == Option::<int>::Some(#[trigger] path@[s] as int),
                forall|s: int| 0 <= s < path@.len() ==> (#[trigger] path@[s]) < self.edges.len(),
            decreases
                    self.edges.len() - t,
                    (if found {
                        0int
                    } else {
                        1int
                    }),
        {
            if cur == pe {
                found = true;
            } else {
                path.push(cur);
                let stop: bool = match self.edges[cur].next {
                    None => true,
                    Some(nh) => match self.edges[nh.index].opposite {
                        None => true,
                        Some(oh) => {
                            proof {
                                assert(next_index(es, cur as int) == Option::<int>::Some(
                                    nh.index as int,
                                ));
                                assert(fan_index(es, cur as int) == Option::<int>::Some(
                                    oh.index as int,
                                ));
                                assert(fan_walk(es, o.index as int, (t + 1) as nat)
                                    == Option::<int>::Some(oh.index as int));
                            }
                            cur = oh.index;
                            t = t + 1;
                            false
                        },
                    },
                };
                if stop {
                    proof {
                        assert(fan_walk(es, o.index as int, (t + 1) as nat) is None);
                        assert forall|k: int|
                            1 <= k <= es.len() implies !is_fan_path(
                            es,
                            o.index as int,
                            pe as int,
                            k,
                        ) by {
                            if k > t {
                                lemma_fan_walk_none_persists(
                                    es,
                                    o.index as int,
                                    (t + 1) as nat,
                                    k as nat,
                                );
                            }
                        }
                        assert(!has_fan_path(es, o.index as int, pe as int));
                        assert(fan_walk(es, o.index as int, 0) == Option::<int>::Some(
                            o.index as int,
                        ));
                        assert(o.index as int != pe as int);
                    }
                    return Err(MeshError::BorderElement);
                }
            }
        }
        if !found {
            if cur == pe {
                found = true;
            }
        }
        if !found {
            proof {
                assert forall|k: int|
                    1 <= k <= es.len() implies !is_fan_path(es, o.index as int, pe as int, k) by {
                    assert(fan_walk(es, o.index as int, k as nat) != Option::<int>::Some(
                        pe as int,
                    ));
                }
                assert(!has_fan_path(es, o.index as int, pe as int));
                assert(fan_walk(es, o.index as int, 0) == Option::<int>::Some(o.index as int));
                assert(o.index as int != pe as int);
            }
            return Err(MeshError::BorderElement);
        }
        proof {
            assert(fan_walk(es, o.index as int, 0) == Option::<int>::Some(o.index as int));
            if o.index != pe {
                assert(is_fan_path(es, o.index as int, pe as int, path@.len() as int));
                assert(has_fan_path(es, o.index as int, pe as int));
            }
        }
        if !self.edges[o.index].live {
            return Err(MeshError::IdentityNotFound);
        }
        proof {
            assert(self.edge_ok(self.edges@[o.index as int]));
        }
        if !self.vertices[ov.index].live {
            return Err(MeshError::IdentityNotFound);
        }
        proof {
            assert(join_vertex_applicable(*self, e as int));
            assert(self.vertex_ok(self.vertices@[v.index as int]));
            assert(self.vertex_ok(self.vertices@[ov.index as int]));
            assert(walk_at(es, o.index as int, do_ - 1) == po as int);
            assert forall|q: int| 0 <= q < path@.len() implies (#[trigger] path@[q]) as int
                == fan_at(es, o.index as int, q) by {
                assert(fan_walk(es, o.index as int, q as nat) == Option::<int>::Some(
                    path@[q] as int,
                ));
            }
            assert forall|q: int| 0 <= q < path@.len() implies (#[trigger] path@[q]) != pe by {
                if q == 0 {
                    assert(fan_walk(es, o.index as int, 0) == Option::<int>::Some(o.index as int));
                } else {
                    lemma_fan_path_distinct(
                        es,
                        o.index as int,
                        pe as int,
                        path@.len() as int,
                        q,
                        path@.len() as int,
                    );
                }
            }
        }
        let ghost preg = *self;
        self.join_vertex_apply(e, o, v, ov, f, of, en, on, pe, po, de, do_, &path);
        proof {
            assert(is_loop(preg.edges@, e as int, de as int));
            assert(is_loop(preg.edges@, o.index as int, do_ as int));
            assert(join_vertex_rewired(
                preg,
                *self,
                e as int,
                de as int,
                do_ as int,
                path@.len() as int,
            ));
        }
        Ok(())
    }

    /// Performs the rewiring of `join_vertex` once its preconditions are
    /// established: `o` is the twin of `e`, `v` and `ov` the two origins,
    /// `f` and `of` the two facets, `en` and `on` the two successors, `pe`
    /// and `po` the two predecessors, and `path` the fan slots re-aimed at
    /// the kept origin.
    #[verifier::loop_isolation(false)]
    #[verifier::rlimit(100)]
    fn join_vertex_apply(
        &mut self,
        e: usize,
        o: Handle,
        v: Handle,
        ov: Handle,
        f: Handle,
        of: Handle,
        en: Handle,
        on: Handle,
        pe: usize,
        po: usize,
        de: usize,
        do_: usize,
        path: &Vec<usize>,
    )
        requires
            old(self).wf(),
            e < old(self).edges.len(),
            o.index < old(self).edges.len(),
            o.index != e,
            old(self).edges@[e as int].opposite == Some(o),
            old(self).edges@[e as int].vertex == Some(v),
            old(self).edges@[o.index as int].vertex == Some(ov),
            v.index != ov.index,
            v.index < old(self).vertices.len(),
            ov.index < old(self).vertices.len(),
            old(self).edges@[e as int].face == Some(f),
            old(self).edges@[o.index as int].face == Some(of),
            f.index < old(self).facets.len(),
            of.index < old(self).facets.len(),
            old(self).edges@[e as int].next == Some(en),
            old(self).edges@[o.index as int].next == Some(on),
            en.index < old(self).edges.len(),
            on.index < old(self).edges.len(),
            pe < old(self).edges.len(),
            po < old(self).edges.len(),
            old(self).edges@[e as int].live,
            old(self).edges@[o.index as int].live,
            old(self).vertices@[ov.index as int].live,
            forall|s: int| 0 <= s < path@.len() ==> (#[trigger] path@[s]) < old(self).edges.len(),
            1 <= de,
            1 <= do_,
            pe as int == walk_at(old(self).edges@, e as int, de - 1),
            po as int == walk_at(old(self).edges@, o.index as int, do_ - 1),
            forall|s: int|
                0 <= s < path@.len() ==> (#[trigger] path@[s]) as int == fan_at(
                    old(self).edges@,
                    o.index as int,
                    s,
                ),
            forall|s: int| 0 <= s < path@.len() ==> (#[trigger] path@[s]) != pe,
        ensures
            final(self).wf(),
            final(self).vertex_count() == old(self).vertex_count() - 1,
            final(self).edge_count() == old(self).edge_count() - 2,
            final(self).facet_count() == old(self).facet_count(),
            final(self).vertices@.len() == old(self).vertices@.len(),
            final(self).edges@.len() == old(self).edges@.len(),
            final(self).facets@.len() == old(self).facets@.len(),
            final(self).vertices@[v.index as int] == (Vertex {
                position: Pos2 {
                    x: (div_trunc(
                        old(self).vertices@[v.index as int].position.x + old(
                            self,
                        ).vertices@[ov.index as int].position.x,
                        2,
                    )) as i64,
                    y: (div_trunc(
                        old(self).vertices@[v.index as int].position.y + old(
                            self,
                        ).vertices@[ov.index as int].position.y,
                        2,
                    )) as i64,
                },
                edge: if old(self).vertices@[v.index as int].edge == some_handle(e as int) || old(
                    self,
                ).vertices@[v.index as int].edge == some_handle(o.index as int) {
                    if pe != e && pe != o.index {
                        some_handle(pe as int)
                    } else {
                        None
                    }
                } else {
                    old(self).vertices@[v.index as int].edge
                },
                live: old(self).vertices@[v.index as int].live,
            }),
            join_vertex_rewired(
                *old(self),
                *final(self),
                e as int,
                de as int,
                do_ as int,
                path@.len() as int,
            ),
            old(self).vertices@[v.index as int].position == old(self).vertices@[ov.index as int].position
                ==> final(self).vertices@[v.index as int].position == old(self).vertices@[v.index as int].position,
            final(self).vertices@[ov.index as int] == (Vertex {
                position: old(self).vertices@[ov.index as int].position,
                edge: old(self).vertices@[ov.index as int].edge,
                live: false,
            }),
            forall|i: int|
                0 <= i < old(self).vertices@.len() && i != v.index as int && i != ov.index as int
                    ==> final(self).vertices@[i] == #[trigger] old(self).vertices@[i],
            !final(self).edges@[e as int].live,
            !final(self).edges@[o.index as int].live,
            forall|i: int|
                0 <= i < old(self).edges@.len() && i != e as int && i != o.index as int ==> (
                #[trigger] final(self).edges@[i]).live == old(self).edges@[i].live,
            final(self).facets@[of.index as int].edge == Some(on),
            f.index != of.index ==> final(self).facets@[f.index as int].edge == Some(en),
            forall|i: int|
                0 <= i < old(self).facets@.len() ==> (#[trigger] final(self).facets@[i]).live
                    == old(self).facets@[i].live,
            forall|i: int|
                0 <= i < old(self).facets@.len() && i != f.index as int && i != of.index as int
                    ==> final(self).facets@[i] == #[trigger] old(self).facets@[i],
    {
        let ghost es = self.edges@;
        let ghost pre = *self;
        let vstale: bool = match self.vertices[v.index].edge {
            Some(h) => h.index == e || h.index == o.index,
            None => false,
        };
        let newpos: Pos2 = self.vertices[v.index].position.midpoint(
            self.vertices[ov.index].position,
        );
        self.vertices[v.index].position = newpos;
        if vstale {
            if pe != e && pe != o.index {
                self.vertices[v.index].edge = Some(Handle { index: pe });
            } else {
                self.vertices[v.index].edge = None;
            }
        }
        let ghost newv = (Vertex {
            position: newpos,
            edge: if vstale {
                if pe != e && pe != o.index {
                    some_handle(pe as int)
                } else {
                    None
                }
            } else {
                pre.vertices@[v.index as int].edge
            },
            live: pre.vertices@[v.index as int].live,
        });
        proof {
            assert(self.vertices@ =~= pre.vertices@.update(v.index as int, newv));
        }
        self.facets[f.index].edge = Some(en);
        self.facets[of.index].edge = Some(on);
        let ghost base = self.edges@;
        proof {
            assert forall|i: int| 0 <= i < self.edges@.len() implies self.edge_ok(
                #[trigger] self.edges@[i],
            ) by {
                assert(pre.edge_ok(pre.edges@[i]));
            }
        }
        let mut t3: usize = 0;
        while t3 < path.len()
            invariant
                v.index < self.vertices@.len(),
                forall|i: int|
                    0 <= i < self.edges@.len() ==> self.edge_ok(#[trigger] self.edges@[i]),
                t3 <= path@.len(),
                self.vertices@ == pre.vertices@.update(v.index as int, newv),
                self.facets@.len() == pre.facets@.len(),
                forall|i: int|
                    0 <= i < pre.facets@.len() ==> (#[trigger] self.facets@[i]).live
                        == pre.facets@[i].live,
                self.facets@[of.index as int].edge == Some(on),
                f.index != of.index ==> self.facets@[f.index as int].edge == Some(en),
                forall|i: int|
                    0 <= i < pre.facets@.len() && i != f.index as int && i != of.index as int
                        ==> self.facets@[i] == #[trigger] pre.facets@[i],
                self.edges@.len() == base.len(),
                forall|s: int| 0 <= s < path@.len() ==> (#[trigger] path@[s]) < base.len(),
                forall|i: int|
                    0 <= i < base.len() ==> (#[trigger] self.edges@[i]).is_live()
                        == base[i].is_live(),
                forall|s: int|
                    0 <= s < t3 ==> self.edges@[#[trigger] path@[s] as int] == (HalfEdge {
                        vertex: Some(v),
                        face: base[path@[s] as int].face,
                        opposite: base[path@[s] as int].opposite,
                        next: base[path@[s] as int].next,
                        live: base[path@[s] as int].live,
                    }),
                forall|i: int|
                    0 <= i < base.len() && !(exists|s: int| 0 <= s < t3 && #[trigger] path@[s]
                        == i as usize) ==> self.edges@[i] == #[trigger] base[i],
            decreases path@.len() - t3,
        {
            let s: usize = path[t3];
            self.edges[s].vertex = Some(v);
            t3 = t3 + 1;
        }
        self.edges[pe].next = Some(en);
        self.edges[pe].vertex = Some(v);
        self.edges[po].next = Some(on);
        proof {
            assert forall|i: int|
                0 <= i < base.len() implies (#[trigger] self.edges@[i]).is_live()
                == base[i].is_live() by {}
            lemma_live_count_agree(self.edges@, pre.edges@, pre.edges@.len() as int);
            assert forall|i: int| 0 <= i < self.edges@.len() implies self.edge_ok(
                #[trigger] self.edges@[i],
            ) by {
                assert(pre.edge_ok(pre.edges@[e as int]));
                assert(pre.edge_ok(pre.edges@[o.index as int]));
            }
            assert forall|i: int| 0 <= i < self.facets@.len() implies self.facet_ok(
                #[trigger] self.facets@[i],
            ) by {
                assert(pre.facet_ok(pre.facets@[i]));
                assert(pre.edge_ok(pre.edges@[e as int]));
                assert(pre.edge_ok(pre.edges@[o.index as int]));
            }
            assert forall|i: int| 0 <= i < self.vertices@.len() implies self.vertex_ok(
                #[trigger] self.vertices@[i],
            ) by {
                assert(pre.vertex_ok(pre.vertices@[i]));
            }
            assert(self.wf());
        }
        let mut kill: Vec<usize> = Vec::new();
        kill.push(e);
        kill.push(o.index);
        proof {
            assert(kill@[0] == e && kill@[1] == o.index && kill@.len() == 2);
        }
        let ghost mid = *self;
        self.retire_edges(&kill);
        proof {
            lemma_live_count_update(
                self.vertices@,
                self.vertices@.len() as int,
                ov.index as int,
                Vertex {
                    position: pre.vertices@[ov.index as int].position,
                    edge: pre.vertices@[ov.index as int].edge,
                    live: false,
                },
            );
            lemma_live_count_update(pre.vertices@, pre.vertices@.len() as int, v.index as int, newv);
        }
        self.vertices[ov.index].live = false;
        proof {
            assert forall|i: int|
                0 <= i < pre.edges@.len() && i != e as int && i != o.index as int implies (
            #[trigger] self.edges@[i]).live == pre.edges@[i].live by {
                assert((mid.edges@[i]).is_live() == base[i].is_live());
                assert(self.edges@[i] == mid.edges@[i]);
            }
            assert forall|i: int|
                0 <= i < pre.edges@.len() implies (#[trigger] self.edges@[i]).vertex
                == mid.edges@[i].vertex && self.edges@[i].next == mid.edges@[i].next
                && self.edges@[i].face == mid.edges@[i].face && self.edges@[i].opposite
                == mid.edges@[i].opposite by {
                assert(kill@[0] == e && kill@[1] == o.index);
                if i != e as int && i != o.index as int {
                    assert(self.edges@[i] == mid.edges@[i]);
                }
            }
            assert(base =~= es);
            assert(join_vertex_rewired(
                pre,
                *self,
                e as int,
                de as int,
                do_ as int,
                path@.len() as int,
            )) by {
                assert forall|t: int|
                    0 <= t < path@.len() implies self.edges@[#[trigger] fan_at(
                    es,
                    o.index as int,
                    t,
                )].vertex == some_handle(v.index as int) by {
                    assert(path@[t] as int == fan_at(es, o.index as int, t));
                    assert(path@[t] != pe);
                    assert(mid.edges@[path@[t] as int].vertex == Some(v));
                }
                assert(mid.edges@[pe as int].vertex == Some(v));
                assert(mid.edges@[po as int].next == Some(on));
                assert forall|i: int|
                    0 <= i < es.len() && i != pe as int && !(exists|t: int|
                        0 <= t < path@.len() as int && #[trigger] fan_at(es, o.index as int, t)
                            == i) implies (#[trigger] self.edges@[i]).vertex == es[i].vertex by {
                    assert forall|q: int| 0 <= q < path@.len() implies #[trigger] path@[q]
                        != i as usize by {
                        if path@[q] == i as usize {
                            assert(fan_at(es, o.index as int, q) == i);
                        }
                    }
                    assert(mid.edges@[i].vertex == base[i].vertex);
                }
            }
            lemma_live_count_agree(mid.facets@, pre.facets@, pre.facets@.len() as int);
            assert forall|i: int| 0 <= i < self.vertices@.len() implies self.vertex_ok(
                #[trigger] self.vertices@[i],
            ) by {
                assert(pre.vertex_ok(pre.vertices@[i]));
            }
            assert forall|i: int| 0 <= i < self.facets@.len() implies self.facet_ok(
                #[trigger] self.facets@[i],
            ) by {
                assert(pre.facet_ok(pre.facets@[i]));
            }
            assert forall|i: int| 0 <= i < self.edges@.len() implies self.edge_ok(
                #[trigger] self.edges@[i],
            ) by {
                assert(pre.edge_ok(pre.edges@[i]));
            }
        }
    }
}

} // verus!