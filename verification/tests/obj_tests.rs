use halfedge_mesh::builder::ConstructionError;
use halfedge_mesh::mesh::Vec3;
use halfedge_mesh::obj::{ImportError, ParseError};
use halfedge_mesh::primitives::{Box, Polygon, UVSphere};
use halfedge_mesh::HalfEdgeMesh;

fn point(x: &str, y: &str, z: &str) -> Vec3 {
    Vec3::new(
        x.as_bytes().to_vec(),
        y.as_bytes().to_vec(),
        z.as_bytes().to_vec(),
    )
}

fn coord(f: f32) -> Vec<u8> {
    format!("{}", f).into_bytes()
}

fn fpoint(p: [f32; 3]) -> Vec3 {
    Vec3::new(coord(p[0]), coord(p[1]), coord(p[2]))
}

fn box_corners() -> Vec<Vec3> {
    vec![
        fpoint([-0.5, -0.5, -0.5]),
        fpoint([0.5, -0.5, -0.5]),
        fpoint([0.5, -0.5, 0.5]),
        fpoint([-0.5, -0.5, 0.5]),
        fpoint([-0.5, 0.5, -0.5]),
        fpoint([-0.5, 0.5, 0.5]),
        fpoint([0.5, 0.5, 0.5]),
        fpoint([0.5, 0.5, -0.5]),
    ]
}

/// The multiset of per-face corner counts, as a sorted list.
fn degree_multiset(m: &HalfEdgeMesh) -> Vec<usize> {
    let mut out = Vec::new();
    for f in 0..m.num_face_slots() {
        if m.face_alive(f) {
            out.push(m.face_degree(f));
        }
    }
    out.sort();
    out
}

fn assert_round_trip(m: &HalfEdgeMesh) {
    let text = m.export_obj_text();
    let m2 = HalfEdgeMesh::import_obj_text(&text).expect("round trip import");
    assert_eq!(m2.num_vertices(), m.num_vertices());
    for v in 0..m.num_vertices() {
        assert!(m2.position(v).bytes_eq(m.position(v)));
    }
    assert_eq!(degree_multiset(&m2), degree_multiset(m));
}

#[test]
fn round_trip_box() {
    let m = Box::build(box_corners());
    assert_round_trip(&m);
}

#[test]
fn round_trip_sphere() {
    let segments = 6usize;
    let rings = 3usize;
    let mut verts = vec![fpoint([0.0, 1.0, 0.0])];
    for i in 0..rings - 1 {
        let phi = std::f32::consts::PI * (i + 1) as f32 / rings as f32;
        for j in 0..segments {
            let theta = 2.0 * std::f32::consts::PI * j as f32 / segments as f32;
            verts.push(fpoint([
                phi.sin() * theta.cos(),
                phi.cos(),
                phi.sin() * theta.sin(),
            ]));
        }
    }
    verts.push(fpoint([0.0, -1.0, 0.0]));
    let m = UVSphere::build(verts, segments, rings).unwrap();
    assert_round_trip(&m);
}

#[test]
fn round_trip_polygon() {
    let m = Polygon::build_from_points(vec![
        point("0", "0", "0"),
        point("2", "0", "0"),
        point("2", "2", "0"),
        point("0", "2", "0"),
        point("-1", "1", "0"),
    ])
    .unwrap();
    assert_round_trip(&m);
}

#[test]
fn export_text_shape() {
    let m = Polygon::build_from_points(vec![
        point("0", "0", "0"),
        point("1", "0", "0"),
        point("0", "1", "0"),
    ])
    .unwrap();
    let text = String::from_utf8(m.export_obj_text()).unwrap();
    let lines: Vec<&str> = text.lines().collect();
    assert_eq!(lines[0], "# halfedge mesh");
    assert_eq!(lines[1], "v 0 0 0");
    assert_eq!(lines[2], "v 1 0 0");
    assert_eq!(lines[3], "v 0 1 0");
    assert_eq!(lines[4], "f 1 2 3");
    assert_eq!(lines.len(), 5);
}

#[test]
fn import_reads_one_based_indices() {
    let text = b"# any comment\nv 0 0 0\nv 1 0 0\nv 0 1 0\nf 1 2 3\n".to_vec();
    let m = HalfEdgeMesh::import_obj_text(&text).unwrap();
    assert_eq!(m.num_vertices(), 3);
    assert_eq!(m.num_faces(), 1);
    assert_eq!(m.face_degree(0), 3);
    assert_eq!(m.vertex(m.face_halfedge(0)), Some(0));
}

#[test]
fn import_accepts_corner_forms() {
    let text =
        b"v 0 0 0\nv 1 0 0\nv 0 1 0\nvt 0 0\nvn 0 0 1\nf 1/1/1 2/1 3//1\n".to_vec();
    let m = HalfEdgeMesh::import_obj_text(&text).unwrap();
    assert_eq!(m.num_vertices(), 3);
    assert_eq!(m.num_faces(), 1);
}

#[test]
fn import_discards_normals_and_uvs() {
    let text = b"v 0 0 0\nv 1 0 0\nv 0 1 0\nvn 0 0 1\nvt 0.5 0.5\nf 1 2 3\n".to_vec();
    let m = HalfEdgeMesh::import_obj_text(&text).unwrap();
    // The rebuilt mesh has no normal or texture channel: exporting it again
    // emits no vn or vt records.
    let text2 = String::from_utf8(m.export_obj_text()).unwrap();
    assert!(!text2.contains("vn "));
    assert!(!text2.contains("vt "));
}

#[test]
fn import_rejects_truncated_vertex() {
    let text = b"v 0 0\n".to_vec();
    let r = HalfEdgeMesh::import_obj_text(&text);
    assert_eq!(r.err(), Some(ImportError::Parse(ParseError::Truncated)));
}

#[test]
fn import_rejects_non_numeric_coordinate() {
    let text = b"v 0 zero 0\n".to_vec();
    let r = HalfEdgeMesh::import_obj_text(&text);
    assert_eq!(r.err(), Some(ImportError::Parse(ParseError::NonNumeric)));
}

#[test]
fn import_rejects_non_numeric_face_index() {
    let text = b"v 0 0 0\nv 1 0 0\nv 0 1 0\nf 1 2 x\n".to_vec();
    let r = HalfEdgeMesh::import_obj_text(&text);
    assert_eq!(r.err(), Some(ImportError::Parse(ParseError::NonNumeric)));
}

#[test]
fn import_skips_unsupported_keywords() {
    // Records outside the supported subset (objects, groups, smoothing,
    // materials) are skipped, as fuller readers of the format do.
    let text =
        b"mtllib things.mtl\no thing\ng grp\ns off\nusemtl mat\nv 0 0 0\nv 1 0 0\nv 0 1 0\nf 1 2 3\n"
            .to_vec();
    let m = HalfEdgeMesh::import_obj_text(&text).unwrap();
    assert_eq!(m.num_vertices(), 3);
    assert_eq!(m.num_faces(), 1);
}

#[test]
fn import_accepts_single_component_texture() {
    let text = b"v 0 0 0\nv 1 0 0\nv 0 1 0\nvt 0.5\nf 1 2 3\n".to_vec();
    let m = HalfEdgeMesh::import_obj_text(&text).unwrap();
    assert_eq!(m.num_vertices(), 3);
}

#[test]
fn import_reports_construction_errors() {
    // A face referencing a vertex past the position count is the builder's
    // out-of-range rejection, not a parse error.
    let text = b"v 0 0 0\nv 1 0 0\nv 0 1 0\nf 1 2 9\n".to_vec();
    let r = HalfEdgeMesh::import_obj_text(&text);
    assert_eq!(
        r.err(),
        Some(ImportError::Construction(ConstructionError::IndexOutOfRange))
    );
    let text = b"v 0 0 0\nv 1 0 0\nv 0 1 0\nf 1 2\n".to_vec();
    let r = HalfEdgeMesh::import_obj_text(&text);
    assert_eq!(
        r.err(),
        Some(ImportError::Construction(ConstructionError::PolygonTooSmall))
    );
}

#[test]
fn import_skips_blank_lines_and_comments() {
    let text = b"\n# header\n\nv 0 0 0\nv 1 0 0\nv 0 1 0\n\nf 1 2 3\n".to_vec();
    let m = HalfEdgeMesh::import_obj_text(&text).unwrap();
    assert_eq!(m.num_vertices(), 3);
}

#[test]
fn export_emits_normals_and_uvs_when_present() {
    let mut m = Polygon::build_from_points(vec![
        point("0", "0", "0"),
        point("1", "0", "0"),
        point("0", "1", "0"),
    ])
    .unwrap();
    // Fill the per-vertex normal channel and the per-corner texture channel.
    m.normals = vec![
        point("0", "0", "1"),
        point("0", "0", "1"),
        point("0", "0", "1"),
    ];
    m.uvs = (0..3)
        .map(|i| {
            halfedge_mesh::mesh::Vec2 {
                x: format!("0.{}", i).into_bytes(),
                y: b"0".to_vec(),
            }
        })
        .collect();
    let text = String::from_utf8(m.export_obj_text()).unwrap();
    let lines: Vec<&str> = text.lines().collect();
    assert_eq!(lines[0], "# halfedge mesh");
    assert_eq!(lines[4], "vn 0 0 1");
    assert_eq!(lines[7], "vt 0.0 0");
    // One corner per half-edge: vertex/texture/normal, all 1-based; the
    // normal index repeats the vertex index.
    assert_eq!(lines[10], "f 1/1/1 2/2/2 3/3/3");
}

#[test]
fn flat_normal_mode_skips_normals() {
    let mut m = Polygon::build_from_points(vec![
        point("0", "0", "0"),
        point("1", "0", "0"),
        point("0", "1", "0"),
    ])
    .unwrap();
    m.normals = vec![
        point("0", "0", "1"),
        point("0", "0", "1"),
        point("0", "0", "1"),
    ];
    m.smooth_normals = false;
    let text = String::from_utf8(m.export_obj_text()).unwrap();
    assert!(!text.contains("vn "));
}
