use vstd::prelude::*;

use crate::polyhedron::Polyhedron2;

verus! {

/// Counts alone fix the Euler characteristic: two meshes with equal live
/// counts have the same doubled Euler characteristic `2·V − E + 2·F`.
pub proof fn lemma_counts_fix_euler_characteristic(m0: Polyhedron2, m1: Polyhedron2)
    requires
        m1.vertex_count() == m0.vertex_count(),
        m1.edge_count() == m0.edge_count(),
        m1.facet_count() == m0.facet_count(),
    ensures
        m1.euler_characteristic_doubled() == m0.euler_characteristic_doubled(),
{
}

/// Fanning a facet of degree `d` around a new center vertex adds one vertex,
/// `2·d` half-edges and `d − 1` facets: the doubled Euler characteristic is
/// unchanged by the operation itself.
pub proof fn lemma_center_vertex_preserves_euler(m0: Polyhedron2, m1: Polyhedron2, d: int)
    requires
        m1.vertex_count() == m0.vertex_count() + 1,
        m1.edge_count() == m0.edge_count() + 2 * d,
        m1.facet_count() == m0.facet_count() + (d - 1),
    ensures
        m1.euler_characteristic_doubled() == m0.euler_characteristic_doubled(),
{
}

/// Round trip of the center-vertex pair: creating a center vertex in a facet
/// of degree `d` and then erasing a hub of that same degree restores all
/// three live counts, and with them the Euler characteristic.
pub proof fn lemma_center_vertex_round_trip(
    m0: Polyhedron2,
    m1: Polyhedron2,
    m2: Polyhedron2,
    d: int,
)
    requires
        m1.vertex_count() == m0.vertex_count() + 1,
        m1.edge_count() == m0.edge_count() + 2 * d,
        m1.facet_count() == m0.facet_count() + (d - 1),
        m2.vertex_count() == m1.vertex_count() - 1,
        m2.edge_count() == m1.edge_count() - 2 * d,
        m2.facet_count() == m1.facet_count() - (d - 1),
    ensures
        m2.vertex_count() == m0.vertex_count(),
        m2.edge_count() == m0.edge_count(),
        m2.facet_count() == m0.facet_count(),
        m2.euler_characteristic_doubled() == m0.euler_characteristic_doubled(),
{
}

/// Splitting a facet adds one facet and one twin pair; the doubled Euler
/// characteristic is unchanged, and a following join of the new pair
/// restores all three live counts.
pub proof fn lemma_facet_split_round_trip(m0: Polyhedron2, m1: Polyhedron2, m2: Polyhedron2)
    requires
        m1.vertex_count() == m0.vertex_count(),
        m1.edge_count() == m0.edge_count() + 2,
        m1.facet_count() == m0.facet_count() + 1,
        m2.vertex_count() == m1.vertex_count(),
        m2.edge_count() == m1.edge_count() - 2,
        m2.facet_count() == m1.facet_count() - 1,
    ensures
        m1.euler_characteristic_doubled() == m0.euler_characteristic_doubled(),
        m2.vertex_count() == m0.vertex_count(),
        m2.edge_count() == m0.edge_count(),
        m2.facet_count() == m0.facet_count(),
        m2.euler_characteristic_doubled() == m0.euler_characteristic_doubled(),
{
}

/// Splitting a vertex adds one vertex and one twin pair; the doubled Euler
/// characteristic is unchanged, and a following join of the new pair
/// restores all three live counts, the vertex count in particular.
pub proof fn lemma_vertex_split_round_trip(m0: Polyhedron2, m1: Polyhedron2, m2: Polyhedron2)
    requires
        m1.vertex_count() == m0.vertex_count() + 1,
        m1.edge_count() == m0.edge_count() + 2,
        m1.facet_count() == m0.facet_count(),
        m2.vertex_count() == m1.vertex_count() - 1,
        m2.edge_count() == m1.edge_count() - 2,
        m2.facet_count() == m1.facet_count(),
    ensures
        m1.euler_characteristic_doubled() == m0.euler_characteristic_doubled(),
        m2.vertex_count() == m0.vertex_count(),
        m2.edge_count() == m0.edge_count(),
        m2.facet_count() == m0.facet_count(),
        m2.euler_characteristic_doubled() == m0.euler_characteristic_doubled(),
{
}

} // verus!
