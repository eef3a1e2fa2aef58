use halfedge_mesh::builder::ConstructionError;
use halfedge_mesh::mesh::Vec3;
use halfedge_mesh::primitives::{Box, Catenary, Circle, Cone, Cylinder, Line, Polygon, Quad, UVSphere};

fn coord(f: f32) -> Vec<u8> {
    format!("{}", f).into_bytes()
}

fn point(p: [f32; 3]) -> Vec3 {
    Vec3::new(coord(p[0]), coord(p[1]), coord(p[2]))
}

/// The ring of `n` positions at the given radius around the vertical axis.
fn ring_verts(center: [f32; 3], radius: f32, n: usize) -> Vec<[f32; 3]> {
    let delta = 2.0 * std::f32::consts::PI / n as f32;
    (0..n)
        .map(|i| {
            let a = delta * i as f32;
            [
                center[0] + radius * a.sin(),
                center[1],
                center[2] + radius * a.cos(),
            ]
        })
        .collect()
}

fn box_corners(center: [f32; 3], size: [f32; 3]) -> Vec<Vec3> {
    let h = [size[0] * 0.5, size[1] * 0.5, size[2] * 0.5];
    let c = center;
    vec![
        point([c[0] - h[0], c[1] - h[1], c[2] - h[2]]),
        point([c[0] + h[0], c[1] - h[1], c[2] - h[2]]),
        point([c[0] + h[0], c[1] - h[1], c[2] + h[2]]),
        point([c[0] - h[0], c[1] - h[1], c[2] + h[2]]),
        point([c[0] - h[0], c[1] + h[1], c[2] - h[2]]),
        point([c[0] - h[0], c[1] + h[1], c[2] + h[2]]),
        point([c[0] + h[0], c[1] + h[1], c[2] + h[2]]),
        point([c[0] + h[0], c[1] + h[1], c[2] - h[2]]),
    ]
}

#[test]
fn test_cone() {
    // Vanishing top radius: a single-apex cone over an 8-ring: 9 vertices.
    let mut verts: Vec<Vec3> = ring_verts([0.0, -0.5, 0.0], 1.0, 8)
        .into_iter()
        .map(point)
        .collect();
    verts.push(point([0.0, 0.5, 0.0]));
    let cone = Cone::build_cone(verts, 8).unwrap();
    assert_eq!(cone.num_vertices(), 9);

    // Frustum with two rings: 16 vertices.
    let mut verts: Vec<Vec3> = ring_verts([0.0, -0.5, 0.0], 2.0, 8)
        .into_iter()
        .map(point)
        .collect();
    verts.extend(ring_verts([0.0, 0.5, 0.0], 1.0, 8).into_iter().map(point));
    let frustum = Cone::build_truncated_cone(verts, 8).unwrap();
    assert_eq!(frustum.num_vertices(), 16);

    let mut verts: Vec<Vec3> = ring_verts([0.0, -0.5, 0.0], 1.0, 8)
        .into_iter()
        .map(point)
        .collect();
    verts.push(point([0.0, 0.5, 0.0]));
    assert!(Cone::build(verts, 8, true).is_ok());

    let mut verts: Vec<Vec3> = ring_verts([0.0, -0.5, 0.0], 2.0, 8)
        .into_iter()
        .map(point)
        .collect();
    verts.extend(ring_verts([0.0, 0.5, 0.0], 1.0, 8).into_iter().map(point));
    assert!(Cone::build(verts, 8, false).is_ok());
}

#[test]
fn test_cylinder() {
    let mut verts: Vec<Vec3> = ring_verts([0.0, -0.5, 0.0], 1.0, 8)
        .into_iter()
        .map(point)
        .collect();
    verts.extend(ring_verts([0.0, 0.5, 0.0], 1.0, 8).into_iter().map(point));
    let cylinder = Cylinder::build(verts, 8);
    assert!(cylinder.is_ok());
}

fn catenary_y(x: f32, a: f32) -> f32 {
    a * (x / a).cosh()
}

fn catenary_dx(x: f32, a: f32) -> f32 {
    (x / a).sinh()
}

#[test]
fn test_catenary() {
    let start = [0.0f32, 0.0, 0.0];
    let end = [0.0f32, 1.0, 1.0];
    let sag = 1.0f32;
    let segments = 8u32;

    // Sample the hanging-chain curve: horizontal offset solved by ten Newton
    // iterations, endpoints taken verbatim by the library.
    let dx = ((end[0] - start[0]).powi(2) + (end[2] - start[2]).powi(2)).sqrt();
    let dy = start[1] - end[1];
    let tension = dx / sag;
    let mut x_off = -dx / 2.0;
    for _ in 0..10 {
        let error = catenary_y(x_off, tension) - catenary_y(x_off + dx, tension) - dy;
        let d_error = catenary_dx(x_off, tension) - catenary_dx(x_off + dx, tension);
        x_off -= error / d_error;
    }
    let y_off = start[1] - catenary_y(x_off, tension);
    let interior: Vec<Vec3> = (1..segments)
        .map(|i| {
            let t = i as f32 / segments as f32;
            let px = start[0] + (end[0] - start[0]) * t;
            let pz = start[2] + (end[2] - start[2]) * t;
            let y = catenary_y(t * dx + x_off, tension) + y_off;
            point([px, y, pz])
        })
        .collect();

    let curve = Catenary::build(point(start), point(end), interior);
    assert_eq!(curve.num_vertices(), 9);
    // The exact endpoints appear verbatim among the positions.
    let s = point(start);
    let e = point(end);
    let mut saw_start = false;
    let mut saw_end = false;
    for v in 0..curve.num_vertices() {
        if curve.position(v).bytes_eq(&s) {
            saw_start = true;
        }
        if curve.position(v).bytes_eq(&e) {
            saw_end = true;
        }
    }
    assert!(saw_start);
    assert!(saw_end);
}

#[test]
fn box_counts() {
    // 8 vertices, 6 faces, 24 half-edges in 12 twin pairs.
    let m = Box::build(box_corners([0.0, 0.0, 0.0], [1.0, 1.0, 1.0]));
    assert_eq!(m.num_vertices(), 8);
    assert_eq!(m.num_faces(), 6);
    assert_eq!(m.num_halfedges(), 24);
    for h in 0..24 {
        let t = m.twin(h).expect("every box half-edge is twinned");
        assert_ne!(t, h);
        assert_eq!(m.twin(t), Some(h));
    }
    for f in 0..6 {
        assert!(m.face_alive(f));
        assert_eq!(m.face_degree(f), 4);
    }
}

#[test]
fn box_face_loops_close() {
    let m = Box::build(box_corners([1.0, 2.0, 3.0], [2.0, 2.0, 2.0]));
    for f in 0..6 {
        let start = m.face_halfedge(f);
        let mut h = start;
        for _ in 0..m.face_degree(f) {
            assert_eq!(m.face(h), Some(f));
            h = m.next(h).unwrap();
        }
        assert_eq!(h, start);
    }
}

#[test]
fn quad_has_no_twins() {
    let m = Quad::build(vec![
        point([0.0, 0.0, 0.0]),
        point([1.0, 0.0, 0.0]),
        point([1.0, 0.0, 1.0]),
        point([0.0, 0.0, 1.0]),
    ]);
    assert_eq!(m.num_vertices(), 4);
    assert_eq!(m.num_faces(), 1);
    assert_eq!(m.num_halfedges(), 4);
    for h in 0..4 {
        assert_eq!(m.twin(h), None);
    }
}

#[test]
fn circle_closed_one_face() {
    let verts: Vec<Vec3> = ring_verts([0.0, 0.0, 0.0], 1.0, 6)
        .into_iter()
        .map(point)
        .collect();
    let m = Circle::build(verts);
    assert_eq!(m.num_vertices(), 6);
    assert_eq!(m.num_faces(), 1);
    assert_eq!(m.face_degree(0), 6);
}

#[test]
fn circle_open_boundary_loop() {
    // Every half-edge is boundary and the loop closes after exactly n steps.
    let n = 5;
    let verts: Vec<Vec3> = ring_verts([0.0, 0.0, 0.0], 2.0, n)
        .into_iter()
        .map(point)
        .collect();
    let m = Circle::build_open(verts);
    assert_eq!(m.num_vertices(), n);
    assert_eq!(m.num_faces(), 0);
    for h in 0..n {
        assert_eq!(m.face(h), None);
        assert_eq!(m.twin(h), None);
    }
    let mut h = 0;
    for step in 0..n {
        let nx = m.next(h).unwrap();
        if step < n - 1 {
            assert_ne!(nx, 0);
        }
        h = nx;
    }
    assert_eq!(h, 0);
}

#[test]
fn sphere_counts() {
    let segments = 8usize;
    let rings = 4usize;
    let mut verts = vec![point([0.0, 1.0, 0.0])];
    for i in 0..rings - 1 {
        let phi = std::f32::consts::PI * (i + 1) as f32 / rings as f32;
        for j in 0..segments {
            let theta = 2.0 * std::f32::consts::PI * j as f32 / segments as f32;
            verts.push(point([
                phi.sin() * theta.cos(),
                phi.cos(),
                phi.sin() * theta.sin(),
            ]));
        }
    }
    verts.push(point([0.0, -1.0, 0.0]));
    assert_eq!(verts.len(), 2 + (rings - 1) * segments);
    let m = UVSphere::build(verts, segments, rings).unwrap();
    assert_eq!(m.num_vertices(), 26);
    assert_eq!(m.num_faces(), 2 * segments + (rings - 2) * segments);
    // Pole fans are triangles, the body quads.
    for f in 0..2 * segments {
        assert_eq!(m.face_degree(f), 3);
    }
    for f in 2 * segments..m.num_faces() {
        assert_eq!(m.face_degree(f), 4);
    }
}

#[test]
fn line_boundary_loop() {
    let pts = vec![
        point([0.0, 0.0, 0.0]),
        point([1.0, 0.0, 0.0]),
        point([2.0, 0.0, 0.0]),
    ];
    let m = Line::build_from_points(pts);
    assert_eq!(m.num_vertices(), 3);
    assert_eq!(m.num_faces(), 0);
    assert_eq!(m.num_halfedges(), 4);
    // Twins pair each segment's two directions.
    assert_eq!(m.twin(0), Some(1));
    assert_eq!(m.twin(1), Some(0));
    assert_eq!(m.twin(2), Some(3));
    assert_eq!(m.twin(3), Some(2));
    // The loop closes after 2 * segments steps.
    let mut h = 0;
    for _ in 0..4 {
        h = m.next(h).unwrap();
    }
    assert_eq!(h, 0);
}

#[test]
fn straight_line_exact_endpoints() {
    let start = point([0.0, 0.0, 0.0]);
    let end = point([3.0, 0.0, 0.0]);
    let interior = vec![point([1.0, 0.0, 0.0]), point([2.0, 0.0, 0.0])];
    let m = Line::build_straight_line(
        Vec3::new(start.x.clone(), start.y.clone(), start.z.clone()),
        Vec3::new(end.x.clone(), end.y.clone(), end.z.clone()),
        interior,
    );
    assert_eq!(m.num_vertices(), 4);
    assert!(m.position(0).bytes_eq(&start));
    assert!(m.position(3).bytes_eq(&end));
}

#[test]
fn polygon_rejects_too_few_points() {
    let r = Polygon::build_from_points(vec![point([0.0, 0.0, 0.0]), point([1.0, 0.0, 0.0])]);
    assert_eq!(r.err(), Some(ConstructionError::PolygonTooSmall));
    let r = Polygon::build_from_points(vec![]);
    assert_eq!(r.err(), Some(ConstructionError::PolygonTooSmall));
}

#[test]
fn polygon_accepts_three_points() {
    let m = Polygon::build_from_points(vec![
        point([0.0, 0.0, 0.0]),
        point([1.0, 0.0, 0.0]),
        point([0.0, 1.0, 0.0]),
    ])
    .unwrap();
    assert_eq!(m.num_vertices(), 3);
    assert_eq!(m.num_faces(), 1);
    assert_eq!(m.face_degree(0), 3);
}
