use halfedge_mesh::builder::ConstructionError;
use halfedge_mesh::HalfEdgeMesh;
use halfedge_mesh::mesh::Vec3;

fn point(x: &str, y: &str, z: &str) -> Vec3 {
    Vec3::new(
        x.as_bytes().to_vec(),
        y.as_bytes().to_vec(),
        z.as_bytes().to_vec(),
    )
}

fn four_points() -> Vec<Vec3> {
    vec![
        point("0", "0", "0"),
        point("1", "0", "0"),
        point("1", "1", "0"),
        point("0", "1", "0"),
    ]
}

#[test]
fn builder_links_two_triangles() {
    let polygons = vec![vec![0usize, 1, 2], vec![0usize, 2, 3]];
    let m = HalfEdgeMesh::build_from_polygons(four_points(), &polygons).unwrap();
    assert_eq!(m.num_vertices(), 4);
    assert_eq!(m.num_faces(), 2);
    assert_eq!(m.num_halfedges(), 6);
    // The shared diagonal {0, 2} is twinned; the outer edges are boundary.
    let mut twinned = 0;
    for h in 0..6 {
        if let Some(t) = m.twin(h) {
            assert_eq!(m.twin(t), Some(h));
            assert_ne!(t, h);
            twinned += 1;
        }
    }
    assert_eq!(twinned, 2);
}

#[test]
fn builder_rejects_small_polygon() {
    let polygons = vec![vec![0usize, 1]];
    let r = HalfEdgeMesh::build_from_polygons(four_points(), &polygons);
    assert_eq!(r.err(), Some(ConstructionError::PolygonTooSmall));
}

#[test]
fn builder_rejects_out_of_range_index() {
    let polygons = vec![vec![0usize, 1, 9]];
    let r = HalfEdgeMesh::build_from_polygons(four_points(), &polygons);
    assert_eq!(r.err(), Some(ConstructionError::IndexOutOfRange));
}

#[test]
fn builder_rejects_triple_edge() {
    // Three distinct triangles all claim the undirected edge {0, 1}.
    let polygons = vec![
        vec![0usize, 1, 2],
        vec![1usize, 0, 3],
        vec![0usize, 1, 3],
    ];
    let r = HalfEdgeMesh::build_from_polygons(four_points(), &polygons);
    assert_eq!(r.err(), Some(ConstructionError::NonManifoldEdge));
}

#[test]
fn builder_accepts_boundary_edges() {
    // Unpaired edges are legal open topology, not an error.
    let polygons = vec![vec![0usize, 1, 2]];
    let m = HalfEdgeMesh::build_from_polygons(four_points(), &polygons).unwrap();
    for h in 0..3 {
        assert_eq!(m.twin(h), None);
        assert_eq!(m.face(h), Some(0));
    }
}

#[test]
fn builder_keeps_positions_verbatim() {
    let pts = four_points();
    let polygons = vec![vec![0usize, 1, 2, 3]];
    let m = HalfEdgeMesh::build_from_polygons(pts, &polygons).unwrap();
    assert!(m.position(0).bytes_eq(&point("0", "0", "0")));
    assert!(m.position(2).bytes_eq(&point("1", "1", "0")));
}

#[test]
fn builder_shape_error_precedes_manifold_error() {
    // A short polygon is reported even when a non-manifold edge also exists.
    let polygons = vec![
        vec![0usize, 1],
        vec![0usize, 1, 2],
        vec![1usize, 0, 3],
        vec![0usize, 1, 3],
    ];
    let r = HalfEdgeMesh::build_from_polygons(four_points(), &polygons);
    assert_eq!(r.err(), Some(ConstructionError::PolygonTooSmall));
}

#[test]
fn remove_face_retires_only_that_face() {
    let polygons = vec![vec![0usize, 1, 2], vec![0usize, 2, 3]];
    let mut m = HalfEdgeMesh::build_from_polygons(four_points(), &polygons).unwrap();
    assert_eq!(m.num_faces(), 2);
    m.remove_face(0);
    assert_eq!(m.num_faces(), 1);
    assert!(!m.face_alive(0));
    assert!(m.face_alive(1));
    // The retired face's half-edges became boundary; the other face's kept
    // their owner, and nothing was deallocated.
    assert_eq!(m.num_halfedges(), 6);
    for h in 0..3 {
        assert_eq!(m.face(h), None);
    }
    for h in 3..6 {
        assert_eq!(m.face(h), Some(1));
    }
}

#[test]
fn vertex_witness_points_home() {
    let polygons = vec![vec![0usize, 1, 2, 3]];
    let m = HalfEdgeMesh::build_from_polygons(four_points(), &polygons).unwrap();
    for v in 0..4 {
        let h = m.vertex_halfedge(v).expect("every used vertex has a witness");
        assert_eq!(m.vertex(h), Some(v));
    }
}
