use polyhedron::facet::Facet;
use polyhedron::halfedge::HalfEdge;
use polyhedron::polyhedron::Polyhedron2;
use polyhedron::pos::Pos2;
use polyhedron::utils::{new_handle, MeshError};
use polyhedron::vertex::Vertex;

#[test]
fn triangle_area_is_half_the_shoelace_sum() {
    let p = Polyhedron2::create_triangle();
    assert_eq!(p.get_area(new_handle(0)), Ok(20000));
    assert_eq!(p.get_area(new_handle(1)), Ok(20000));
    assert_eq!(p.get_area(new_handle(2)), Ok(20000));
}

#[test]
fn area_includes_the_closing_pair() {
    // A square away from the origin: the closing shoelace term is non-zero,
    // so the cyclic sum is needed to get the true area from any start edge.
    let p = Polyhedron2::create_rectangle(2, 2, 2, 2);
    assert_eq!(p.get_area(new_handle(0)), Ok(4));
    assert_eq!(p.get_area(new_handle(1)), Ok(4));
    assert_eq!(p.get_area(new_handle(2)), Ok(4));
    assert_eq!(p.get_area(new_handle(3)), Ok(4));
}

#[test]
fn triangle_center_is_the_truncated_mean() {
    let p = Polyhedron2::create_triangle();
    assert_eq!(p.get_center_position(new_handle(0)), Ok(Pos2 { x: 66, y: 66 }));
}

#[test]
fn rectangle_degree_scenario() {
    let mut p = Polyhedron2::create_rectangle(0, 0, 10, 10);
    assert_eq!(p.facets_size(), 1);
    assert_eq!(p.vertices_size(), 4);
    assert_eq!(p.edges_size(), 4);
    assert_eq!(p.facets[0].degree(&p), Ok(4));
    assert_eq!(p.get_center_position(new_handle(0)).unwrap(), Pos2 { x: 5, y: 5 });
    assert!(p.create_center_vertex(new_handle(0)).is_ok());
    assert_eq!(p.facets_size(), 4);
    assert_eq!(p.vertices_size(), 5);
    assert_eq!(p.edges_size(), 12);
}

#[test]
fn flip_on_degree_four_facet_is_rejected_and_harmless() {
    let mut positions: Vec<Pos2> = Vec::new();
    positions.push(Pos2 { x: 0, y: 0 });
    positions.push(Pos2 { x: 10, y: 0 });
    positions.push(Pos2 { x: 12, y: 8 });
    positions.push(Pos2 { x: 5, y: 14 });
    positions.push(Pos2 { x: -2, y: 8 });
    let mut p = Polyhedron2::create_polygon(&positions);
    // Splitting after edge 0 and edge 2 leaves a quad and a triangle that
    // share the new twin-paired diagonal in slots 5 and 6.
    assert!(p.split_facet(new_handle(0), new_handle(2)).is_ok());
    let vertices = p.vertices.clone();
    let edges = p.edges.clone();
    let facets = p.facets.clone();
    let r = p.flip_edge(new_handle(5));
    assert_eq!(r, Err(MeshError::PreconditionViolation));
    assert_eq!(p.vertices, vertices);
    assert_eq!(p.edges, edges);
    assert_eq!(p.facets, facets);
}

#[test]
fn center_vertex_round_trip_restores_counts() {
    let mut p = Polyhedron2::create_rectangle(0, 0, 10, 10);
    assert!(p.create_center_vertex(new_handle(0)).is_ok());
    // The first inward spoke, whose origin is the new hub, sits in slot 4.
    assert!(p.erase_center_vertex(new_handle(4)).is_ok());
    assert_eq!(p.vertices_size(), 4);
    assert_eq!(p.edges_size(), 4);
    assert_eq!(p.facets_size(), 1);
}

#[test]
fn facet_split_round_trip_restores_counts() {
    let mut p = Polyhedron2::create_rectangle(0, 0, 10, 10);
    assert!(p.split_facet(new_handle(0), new_handle(2)).is_ok());
    assert_eq!(p.facets_size(), 2);
    assert_eq!(p.edges_size(), 6);
    // The kept half of the diagonal pair sits in slot 4.
    assert!(p.join_facet(new_handle(4)).is_ok());
    assert_eq!(p.facets_size(), 1);
    assert_eq!(p.edges_size(), 6 - 2);
    assert_eq!(p.vertices_size(), 4);
    assert_eq!(p.facets[0].degree(&p), Ok(4));
}

#[test]
fn vertex_split_round_trip_restores_counts_and_position() {
    let mut p = Polyhedron2::create_rectangle(0, 0, 10, 10);
    assert!(p.create_center_vertex(new_handle(0)).is_ok());
    assert_eq!(p.vertices[4].position, Pos2 { x: 5, y: 5 });
    // Slots 4 and 10 are two outward spokes sharing the hub as origin.
    assert!(p.split_vertex(new_handle(4), new_handle(10)).is_ok());
    assert_eq!(p.vertices_size(), 6);
    assert_eq!(p.edges_size(), 14);
    assert_eq!(p.vertices[5].position, Pos2 { x: 5, y: 5 });
    // The new pair sits in slots 12 and 13; joining merges the two copies
    // back into one vertex, bit-identical since both share one position.
    assert!(p.join_vertex(new_handle(12)).is_ok());
    assert_eq!(p.vertices_size(), 5);
    assert_eq!(p.edges_size(), 12);
    assert_eq!(p.vertices[4].position, Pos2 { x: 5, y: 5 });
}

#[test]
fn flip_toggling_restores_adjacency() {
    let mut p = Polyhedron2::create_rectangle(0, 0, 10, 10);
    assert!(p.split_facet(new_handle(0), new_handle(2)).is_ok());
    let diagonal_ends = |p: &Polyhedron2| {
        let mut a = p.edges[4].vertex.unwrap().index;
        let mut b = p.edges[5].vertex.unwrap().index;
        if a > b {
            std::mem::swap(&mut a, &mut b);
        }
        (a, b)
    };
    // The diagonal of the triangulated quad runs between corners 0 and 2.
    assert_eq!(diagonal_ends(&p), (0, 2));
    assert!(p.flip_edge(new_handle(4)).is_ok());
    // After one flip it connects the two apex corners instead.
    assert_eq!(diagonal_ends(&p), (1, 3));
    assert!(p.flip_edge(new_handle(4)).is_ok());
    // A second flip restores the original adjacency.
    assert_eq!(diagonal_ends(&p), (0, 2));
    assert_eq!(p.vertices_size(), 4);
    assert_eq!(p.edges_size(), 6);
    assert_eq!(p.facets_size(), 2);
    assert_eq!(p.edges[4].opposite, Some(new_handle(5)));
    assert_eq!(p.edges[5].opposite, Some(new_handle(4)));
    for i in 0..4 {
        assert_eq!(p.edges[i].vertex, Some(new_handle(i)));
    }
    let quad_facet = Facet { edge: Some(new_handle(4)), live: true };
    assert_eq!(quad_facet.degree(&p), Ok(3));
    let other_facet = Facet { edge: Some(new_handle(5)), live: true };
    assert_eq!(other_facet.degree(&p), Ok(3));
}

#[test]
fn border_vertex_has_no_degree() {
    let p = Polyhedron2::create_rectangle(0, 0, 10, 10);
    assert_eq!(p.vertices[0].degree(&p), Err(MeshError::BorderElement));
}

#[test]
fn unanchored_facet_has_no_degree() {
    let p = Polyhedron2::create_triangle();
    let loose = Facet::new();
    assert_eq!(loose.degree(&p), Err(MeshError::MissingAdjacency));
}

#[test]
fn joining_a_retired_twin_is_not_found() {
    let mut p = Polyhedron2::new();
    p.vertices.push(Vertex { position: Pos2 { x: 0, y: 0 }, edge: Some(new_handle(0)), live: true });
    let mut e0 = HalfEdge::new();
    e0.vertex = Some(new_handle(0));
    e0.face = Some(new_handle(0));
    e0.opposite = Some(new_handle(1));
    e0.next = Some(new_handle(0));
    let mut e1 = HalfEdge::new();
    e1.vertex = Some(new_handle(0));
    e1.face = Some(new_handle(1));
    e1.opposite = Some(new_handle(0));
    e1.next = Some(new_handle(1));
    e1.live = false;
    p.edges.push(e0);
    p.edges.push(e1);
    p.facets.push(Facet { edge: Some(new_handle(0)), live: true });
    p.facets.push(Facet { edge: Some(new_handle(1)), live: true });
    assert_eq!(p.join_facet(new_handle(0)), Err(MeshError::IdentityNotFound));
}

#[test]
fn missing_references_are_reported() {
    let mut p = Polyhedron2::create_triangle();
    // Triangles built by the canonical constructors carry no twins.
    assert_eq!(p.join_facet(new_handle(0)), Err(MeshError::MissingAdjacency));
    assert_eq!(p.flip_edge(new_handle(0)), Err(MeshError::MissingAdjacency));
    assert_eq!(p.join_vertex(new_handle(0)), Err(MeshError::MissingAdjacency));
}

#[test]
fn split_vertex_requires_a_shared_origin() {
    let mut p = Polyhedron2::create_rectangle(0, 0, 10, 10);
    assert_eq!(
        p.split_vertex(new_handle(0), new_handle(1)),
        Err(MeshError::PreconditionViolation)
    );
}

#[test]
fn split_facet_requires_a_shared_facet() {
    let mut p = Polyhedron2::create_rectangle(0, 0, 10, 10);
    assert!(p.split_facet(new_handle(0), new_handle(2)).is_ok());
    // Edges 0 and 2 now bound different facets.
    assert_eq!(
        p.split_facet(new_handle(2), new_handle(0)),
        Err(MeshError::PreconditionViolation)
    );
}

#[test]
fn join_facet_reanchors_a_stale_boundary_reference() {
    let mut p = Polyhedron2::create_rectangle(0, 0, 10, 10);
    assert!(p.split_facet(new_handle(0), new_handle(2)).is_ok());
    // Point the kept facet's boundary reference at the very edge the join
    // removes: the join must re-anchor it on the merged loop.
    p.facets[0].edge = Some(new_handle(4));
    assert!(p.join_facet(new_handle(4)).is_ok());
    assert_eq!(p.facets[0].edge, Some(new_handle(3)));
    assert!(p.edges[3].live);
    assert_eq!(p.facets[0].degree(&p), Ok(4));
}

#[test]
fn euler_characteristic_is_stable_under_the_operators() {
    let mut p = Polyhedron2::create_rectangle(0, 0, 10, 10);
    let euler2 = |p: &Polyhedron2| {
        2 * (p.vertices_size() as i64) - (p.edges_size() as i64) + 2 * (p.facets_size() as i64)
    };
    let before = euler2(&p);
    assert!(p.create_center_vertex(new_handle(0)).is_ok());
    assert_eq!(euler2(&p), before);
    assert!(p.erase_center_vertex(new_handle(4)).is_ok());
    assert_eq!(euler2(&p), before);
}
