//! Canonical primitive shapes: box, quad, circle, sphere, cone family,
//! polyline and catenary curve.
//!
//! Every generator here is pure topology: it lays out the polygon soup for
//! its shape and delegates to the builder (the polyline family builds its
//! boundary loop directly). Positions are opaque coordinate text supplied by
//! the caller; the numeric sampling of a shape (trigonometry, curve solving)
//! happens at the boundary, outside the topology engine.

use vstd::prelude::*;

use crate::builder::{
    all_edges, claims, count_pairs, lemma_all_edges_len,
    lemma_sized_error_none, manifold_ok, mesh_matches_soup, poly_edge, poly_oob, poly_small,
    polys_view, sized_error, soup_error, ConstructionError,
};
use crate::mesh::{count_alive, is_cycle, lemma_cycle_iterate, next_n, next_of, HalfEdge, HalfEdgeMesh, Vec3, Vertex};

verus! {

/// The polygon `[0, 1, .., n-1]`.
pub open spec fn ngon(n: int) -> Seq<usize> {
    Seq::new(n as nat, |i: int| i as usize)
}

/// No element of `s` occurs at two positions.
pub open spec fn pairwise_distinct(s: Seq<(int, int)>) -> bool {
    forall|i: int, j: int| 0 <= i < j < s.len() ==> s[i] != s[j]
}

/// A sequence without repeats counts every element at most once.
proof fn lemma_count_distinct(s: Seq<(int, int)>, e: (int, int))
    requires
        pairwise_distinct(s),
    ensures
        count_pairs(s, e) <= 1,
    decreases s.len(),
{
    if s.len() > 0 {
        assert(pairwise_distinct(s.drop_last())) by {
            assert forall|i: int, j: int|
                0 <= i < j < s.drop_last().len() implies s.drop_last()[i] != s.drop_last()[j] by {
                assert(s[i] == s.drop_last()[i] && s[j] == s.drop_last()[j]);
            }
        }
        lemma_count_distinct(s.drop_last(), e);
        if s.last() == e && count_pairs(s.drop_last(), e) >= 1 {
            lemma_count_absent_or_member(s.drop_last(), e);
        }
    }
}

/// A positive count exhibits a position.
proof fn lemma_count_absent_or_member(s: Seq<(int, int)>, e: (int, int))
    requires
        count_pairs(s, e) >= 1,
    ensures
        exists|i: int| 0 <= i < s.len() && s[i] == e,
    decreases s.len(),
{
    if s.last() == e {
        assert(s[s.len() - 1] == e);
    } else {
        lemma_count_absent_or_member(s.drop_last(), e);
        let i = choose|i: int| 0 <= i < s.drop_last().len() && s.drop_last()[i] == e;
        assert(s[i] == e);
    }
}

/// A single polygon visiting `n` distinct vertices in a cycle claims `n`
/// distinct undirected edges: the soup of one `n`-gon is accepted, and no
/// edge is claimed twice.
pub proof fn lemma_ngon_ok(npos: int, n: int)
    requires
        3 <= n <= npos,
        npos <= usize::MAX,
    ensures
        soup_error(npos, seq![ngon(n)]) is None,
        forall|e: (int, int)| claims(seq![ngon(n)], e) <= 1,
    decreases n,
{
    let polys = seq![ngon(n)];
    assert(sized_error(npos, polys) is None) by {
        assert(!poly_small(ngon(n)));
        assert(!poly_oob(npos, ngon(n))) by {
            assert forall|i: int| 0 <= i < n implies !(ngon(n)[i] >= npos) by {
                assert(ngon(n)[i] == i as usize);
            }
        }
        let rest = polys.drop_first();
        assert(rest =~= Seq::<Seq<usize>>::empty());
        assert(sized_error(npos, rest) is None) by {
            assert(rest.len() == 0);
        }
    }
    let edges = all_edges(polys);
    assert(edges =~= crate::builder::poly_edges(ngon(n))) by {
        let pre = polys.drop_last();
        assert(pre =~= Seq::<Seq<usize>>::empty());
        assert(all_edges(pre) =~= Seq::<(int, int)>::empty()) by {
            assert(pre.len() == 0);
        }
        assert(polys.last() == ngon(n));
    }
    assert(pairwise_distinct(edges)) by {
        assert forall|i: int, j: int| 0 <= i < j < n implies edges[i] != edges[j] by {
            assert(edges[i] == poly_edge(ngon(n), i));
            assert(edges[j] == poly_edge(ngon(n), j));
            lemma_ngon_edge(n, i);
            lemma_ngon_edge(n, j);
        }
    }
    assert forall|e: (int, int)| claims(polys, e) <= 1 by {
        lemma_count_distinct(edges, e);
    }
    assert(manifold_ok(polys));
}

/// The undirected edge at corner `i` of the `n`-gon, written out.
proof fn lemma_ngon_edge(n: int, i: int)
    requires
        3 <= n <= usize::MAX,
        0 <= i < n,
    ensures
        poly_edge(ngon(n), i) == if i < n - 1 {
            (i, i + 1)
        } else {
            (0, n - 1)
        },
{
    if i < n - 1 {
        vstd::arithmetic::div_mod::lemma_small_mod((i + 1) as nat, n as nat);
    } else {
        vstd::arithmetic::div_mod::lemma_mod_self_0(n);
    }
}

/// An arbitrary ordered point list wrapped into a single polygon face.
pub struct Polygon;

impl Polygon {
    /// One face over all the given points, in order. Accepted exactly when
    /// at least three points are given; the positions are kept verbatim.
    pub fn build_from_points(points: Vec<Vec3>) -> (r: Result<HalfEdgeMesh, ConstructionError>)
        ensures
            r is Ok <==> points@.len() >= 3,
            r matches Err(e) ==> e == ConstructionError::PolygonTooSmall,
            r matches Ok(m) ==> {
                &&& m.wf()
                &&& mesh_matches_soup(m, points@, seq![ngon(points@.len() as int)])
                &&& m.n_v() == points@.len()
                &&& m.positions@ == points@
                &&& m.n_f() == 1
                &&& m.fc(0).degree == points@.len()
                &&& m.n_h() == points@.len()
                &&& forall|h: int| 0 <= h < m.n_h() ==> (#[trigger] m.he(h)).twin is None
            },
    {
        let n = points.len();
        let mut indices: Vec<usize> = Vec::new();
        let mut i: usize = 0;
        while i < n
            invariant
                0 <= i <= n,
                indices@.len() == i,
                forall|j: int| 0 <= j < i ==> #[trigger] indices@[j] == j,
            decreases n - i,
        {
            indices.push(i);
            i += 1;
        }
        proof {
            assert(indices@ =~= ngon(n as int));
        }
        let mut polygons: Vec<Vec<usize>> = Vec::new();
        polygons.push(indices);
        let ghost polys = polys_view(&polygons);
        proof {
            assert(polys =~= seq![ngon(n as int)]);
            if n >= 3 {
                lemma_ngon_ok(n as int, n as int);
            } else {
                assert(poly_small(polys.first()));
            }
            lemma_all_edges_len(polys);
            assert(total_edges_of_ngon(n as int) == n) by {
                assert(crate::builder::base(polys, 1) == crate::builder::base(polys, 0)
                    + polys[0].len());
            }
        }
        let r = HalfEdgeMesh::build_from_polygons(points, &polygons);
        proof {
            if n >= 3 {
                assert(r is Ok);
                if let Ok(ref m) = r {
                    assert(m.n_h() == crate::builder::total_edges(polys));
                    assert(m.n_h() == n) by {
                        assert(crate::builder::total_edges(polys) == crate::builder::base(polys, 0)
                            + polys[0].len());
                    }
                    assert forall|h: int| 0 <= h < m.n_h() implies (#[trigger] m.he(h)).twin
                        is None by {
                        assert(claims(polys, all_edges(polys)[h]) <= 1);
                    }
                }
            }
        }
        r
    }
}

/// Helper naming the arena size of a one-polygon soup in hints.
pub open spec fn total_edges_of_ngon(n: int) -> int {
    crate::builder::total_edges(seq![ngon(n)])
}

/// Every edge of `s` from position `i` on is claimed exactly twice in `s`.
pub open spec fn counts_all_two(s: Seq<(int, int)>, i: int) -> bool
    decreases s.len() - i,
{
    if i < 0 || i >= s.len() {
        true
    } else {
        count_pairs(s, s[i]) == 2 && counts_all_two(s, i + 1)
    }
}

/// Walking the check reaches every position.
proof fn lemma_counts_all_two_at(s: Seq<(int, int)>, i: int, h: int)
    requires
        counts_all_two(s, i),
        0 <= i <= h < s.len(),
    ensures
        count_pairs(s, s[h]) == 2,
    decreases h - i,
{
    if i < h {
        lemma_counts_all_two_at(s, i + 1, h);
    }
}

/// A sequence whose every member is claimed exactly twice claims nothing
/// more than twice.
proof fn lemma_counts_all_two_manifold(s: Seq<(int, int)>, e: (int, int))
    requires
        counts_all_two(s, 0),
    ensures
        count_pairs(s, e) <= 2,
{
    if count_pairs(s, e) >= 1 {
        lemma_count_absent_or_member(s, e);
        let i = choose|i: int| 0 <= i < s.len() && s[i] == e;
        lemma_counts_all_two_at(s, 0, i);
    }
}

/// The six quads of the box, over the eight corner indices.
pub open spec fn box_polys() -> Seq<Seq<usize>> {
    seq![
        seq![0usize, 1, 2, 3],
        seq![4usize, 5, 6, 7],
        seq![4usize, 7, 1, 0],
        seq![3usize, 2, 6, 5],
        seq![5usize, 4, 0, 3],
        seq![6usize, 2, 1, 7],
    ]
}

/// The box's twenty-four undirected edge claims, written out in arena order.
pub open spec fn box_edges() -> Seq<(int, int)> {
    seq![
        (0int, 1int), (1int, 2int), (2int, 3int), (0int, 3int),
        (4int, 5int), (5int, 6int), (6int, 7int), (4int, 7int),
        (4int, 7int), (1int, 7int), (0int, 1int), (0int, 4int),
        (2int, 3int), (2int, 6int), (5int, 6int), (3int, 5int),
        (4int, 5int), (0int, 4int), (0int, 3int), (3int, 5int),
        (2int, 6int), (1int, 2int), (1int, 7int), (6int, 7int),
    ]
}

/// The box soup's edge list, evaluated.
#[verifier::rlimit(100)]
#[verifier::spinoff_prover]
proof fn lemma_box_edges_eval()
    ensures
        all_edges(box_polys()) == box_edges(),
{
    let polys = box_polys();
    lemma_all_edges_len(polys);
    assert(crate::builder::total_edges(polys) == 24) by {
        reveal_with_fuel(crate::builder::base, 8);
    }
    assert forall|h: int| 0 <= h < 24 implies all_edges(polys)[h] == box_edges()[h] by {
        reveal_with_fuel(crate::builder::base, 8);
        if h < 4 {
            crate::builder::lemma_all_edges_index(polys, 0, h);
        } else if h < 8 {
            crate::builder::lemma_all_edges_index(polys, 1, h - 4);
        } else if h < 12 {
            crate::builder::lemma_all_edges_index(polys, 2, h - 8);
        } else if h < 16 {
            crate::builder::lemma_all_edges_index(polys, 3, h - 12);
        } else if h < 20 {
            crate::builder::lemma_all_edges_index(polys, 4, h - 16);
        } else {
            crate::builder::lemma_all_edges_index(polys, 5, h - 20);
        }
    }
    assert(all_edges(polys) =~= box_edges());
}

/// Evaluates the box's edge-claim counts.
#[verifier::rlimit(100)]
#[verifier::spinoff_prover]
proof fn lemma_box_counts()
    ensures
        counts_all_two(all_edges(box_polys()), 0),
{
    lemma_box_edges_eval();
    assert(counts_all_two(box_edges(), 0)) by {
        reveal_with_fuel(crate::builder::count_pairs, 26);
        reveal_with_fuel(counts_all_two, 26);
    }
}

/// The box's soup is accepted, allocates twenty-four half-edges, and claims
/// each of its twelve undirected edges exactly twice.
#[verifier::rlimit(100)]
pub proof fn lemma_box_ok()
    ensures
        soup_error(8, box_polys()) is None,
        crate::builder::total_edges(box_polys()) == 24,
        forall|h: int|
            0 <= h < 24 ==> claims(box_polys(), #[trigger] all_edges(box_polys())[h]) == 2,
{
    let polys = box_polys();
    assert(crate::builder::sizes_ok(8, polys)) by {
        assert forall|p: int|
            0 <= p < polys.len() implies !poly_small(#[trigger] polys[p]) && !poly_oob(
            8,
            polys[p],
        ) by {
            assert(polys[p].len() == 4);
            assert forall|i: int| 0 <= i < 4 implies !((#[trigger] polys[p][i]) >= 8) by {}
        }
    }
    lemma_sized_error_none(8, polys);
    assert(crate::builder::total_edges(polys) == 24) by {
        reveal_with_fuel(crate::builder::base, 8);
    }
    lemma_all_edges_len(polys);
    lemma_box_counts();
    assert forall|e: (int, int)| claims(polys, e) <= 2 by {
        lemma_counts_all_two_manifold(all_edges(polys), e);
    }
    assert(manifold_ok(polys));
    assert forall|h: int|
        0 <= h < 24 implies claims(polys, #[trigger] all_edges(polys)[h]) == 2 by {
        lemma_counts_all_two_at(all_edges(polys), 0, h);
    }
}

/// An axis-aligned box: eight corners, six quad faces.
pub struct Box;

impl Box {
    /// The box over the given corners (in the fixed corner order: the four
    /// bottom corners counter-clockwise, then the four top corners).
    /// Yields exactly 8 vertices, 6 quad faces and 24 half-edges, every one
    /// of them twinned: 12 undirected edges in 12 twin pairs.
    pub fn build(corners: Vec<Vec3>) -> (m: HalfEdgeMesh)
        requires
            corners@.len() == 8,
        ensures
            m.wf(),
            mesh_matches_soup(m, corners@, box_polys()),
            m.n_v() == 8,
            m.positions@ == corners@,
            m.n_h() == 24,
            m.n_f() == 6,
            forall|f: int| 0 <= f < 6 ==> (#[trigger] m.fc(f)).alive && m.fc(f).degree == 4,
            forall|h: int| 0 <= h < m.n_h() ==> (#[trigger] m.he(h)).twin is Some,
    {
        let mut polygons: Vec<Vec<usize>> = Vec::new();
        polygons.push(make_quad_poly(0, 1, 2, 3));
        polygons.push(make_quad_poly(4, 5, 6, 7));
        polygons.push(make_quad_poly(4, 7, 1, 0));
        polygons.push(make_quad_poly(3, 2, 6, 5));
        polygons.push(make_quad_poly(5, 4, 0, 3));
        polygons.push(make_quad_poly(6, 2, 1, 7));
        let ghost polys = polys_view(&polygons);
        proof {
            assert(polys =~= box_polys()) by {
                assert forall|p: int| 0 <= p < 6 implies polys[p] =~= box_polys()[p] by {}
            }
            lemma_box_ok();
        }
        match HalfEdgeMesh::build_from_polygons(corners, &polygons) {
            Ok(m) => {
                proof {
                    assert forall|h: int| 0 <= h < m.n_h() implies (#[trigger] m.he(h)).twin
                        is Some by {
                        assert(claims(polys, all_edges(polys)[h]) == 2);
                    }
                }
                m
            },
            Err(_) => {
                proof {
                    assert(false);
                }
                vstd::pervasive::unreached()
            },
        }
    }
}

/// A four-corner polygon as an index list.
fn make_quad_poly(a: usize, b: usize, c: usize, d: usize) -> (r: Vec<usize>)
    ensures
        r@ =~= seq![a, b, c, d],
{
    let mut r: Vec<usize> = Vec::new();
    r.push(a);
    r.push(b);
    r.push(c);
    r.push(d);
    r
}

/// A single quad face.
pub struct Quad;

impl Quad {
    /// One four-sided face over the given corners, in order: four vertices,
    /// four half-edges, all of them boundary (no twins).
    pub fn build(corners: Vec<Vec3>) -> (m: HalfEdgeMesh)
        requires
            corners@.len() == 4,
        ensures
            m.wf(),
            mesh_matches_soup(m, corners@, seq![ngon(4)]),
            m.n_v() == 4,
            m.positions@ == corners@,
            m.n_h() == 4,
            m.n_f() == 1,
            m.fc(0).degree == 4 && m.fc(0).alive,
            forall|h: int| 0 <= h < m.n_h() ==> (#[trigger] m.he(h)).twin is None,
    {
        match Polygon::build_from_points(corners) {
            Ok(m) => m,
            Err(_) => {
                proof {
                    assert(false);
                }
                vstd::pervasive::unreached()
            },
        }
    }
}

/// A circle: `n` vertices around an axis, closed into one `n`-gon face or
/// opened into a face-less boundary loop.
pub struct Circle;

impl Circle {
    /// One `n`-gon face over the given ring of vertices.
    pub fn build(verts: Vec<Vec3>) -> (m: HalfEdgeMesh)
        requires
            verts@.len() >= 3,
        ensures
            m.wf(),
            mesh_matches_soup(m, verts@, seq![ngon(verts@.len() as int)]),
            m.n_v() == verts@.len(),
            m.positions@ == verts@,
            m.n_h() == verts@.len(),
            m.n_f() == 1,
            m.fc(0).degree == verts@.len() && m.fc(0).alive,
            forall|h: int| 0 <= h < m.n_h() ==> (#[trigger] m.he(h)).twin is None,
    {
        match Polygon::build_from_points(verts) {
            Ok(m) => m,
            Err(_) => {
                proof {
                    assert(false);
                }
                vstd::pervasive::unreached()
            },
        }
    }

    /// The same ring built closed and then opened: the face is removed, so
    /// every half-edge is boundary (`face == None`, no twin) and the loop
    /// closes after exactly `n` steps of `next`.
    pub fn build_open(verts: Vec<Vec3>) -> (m: HalfEdgeMesh)
        requires
            verts@.len() >= 3,
        ensures
            m.wf(),
            m.n_v() == verts@.len(),
            m.positions@ == verts@,
            m.n_h() == verts@.len(),
            m.n_f() == 1,
            !m.fc(0).alive,
            count_alive(m.faces@, m.n_f()) == 0,
            forall|h: int|
                0 <= h < m.n_h() ==> {
                    let e = #[trigger] m.he(h);
                    &&& e.face is None
                    &&& e.twin is None
                    &&& e.next == Some((((h + 1) % (m.n_h() as int))) as usize)
                },
            forall|h: int|
                0 <= h < m.n_h() ==> #[trigger] next_n(m, h, m.n_h() as nat) == Some(h),
    {
        let ghost n = verts@.len() as int;
        let mut m = Self::build(verts);
        proof {
            assert(m.fc(0).halfedge == 0) by {
                assert(crate::builder::base(seq![ngon(n)], 0) == 0);
            }
            assert forall|j: int| 0 <= j < n implies (#[trigger] m.he(j)).next == Some(
                (((j + 1) % n) as usize),
            ) && m.he(j).face == Some(0usize) by {
                assert(crate::builder::he_at(m, seq![ngon(n)], 0, j));
            }
        }
        m.remove_face(0);
        proof {
            assert(count_alive(m.faces@, 0) == 0);
            assert(count_alive(m.faces@, 1) == 0);
            let cyc = Seq::new(n as nat, |i: int| i);
            assert(is_cycle(m, cyc)) by {
                assert forall|i: int| 0 <= i < n implies #[trigger] next_of(m, cyc[i]) == Some(
                    cyc[(i + 1) % n],
                ) by {
                    assert(m.he(i).next == Some((((i + 1) % n) as usize)));
                    vstd::arithmetic::div_mod::lemma_mod_bound(i + 1, n);
                }
            }
            assert forall|h: int|
                0 <= h < m.n_h() implies #[trigger] next_n(m, h, m.n_h() as nat) == Some(h) by {
                lemma_cycle_iterate(m, cyc, h, n as nat);
                assert((h + n) % n == h) by {
                    vstd::arithmetic::div_mod::lemma_mod_self_0(n);
                    vstd::arithmetic::div_mod::lemma_add_mod_noop(h, n, n);
                    vstd::arithmetic::div_mod::lemma_small_mod(h as nat, n as nat);
                    vstd::arithmetic::div_mod::lemma_mod_twice(h, n);
                }
            }
        }
        m
    }
}

/// An open polyline or closed cable: a boundary loop with no face semantics.
pub struct Line;

/// The half-edge layout `Line::build` produces for `n` points: segment `i`
/// owns the forward half-edge `2i` (origin `i`) and the backward half-edge
/// `2i + 1` (origin `i + 1`), twinned with each other; the forward chain,
/// the backward chain and the two joins close one boundary loop.
pub open spec fn line_shape(m: HalfEdgeMesh, n: int) -> bool {
    let segs = n - 1;
    forall|i: int|
        0 <= i < segs ==> {
            let f = #[trigger] m.he(2 * i);
            let b = m.he(2 * i + 1);
            &&& f.vertex == Some(i as usize)
            &&& f.twin == Some((2 * i + 1) as usize)
            &&& f.face is None
            &&& f.next == Some(
                if i < segs - 1 {
                    (2 * i + 2) as usize
                } else {
                    (2 * i + 1) as usize
                },
            )
            &&& b.vertex == Some((i + 1) as usize)
            &&& b.twin == Some((2 * i) as usize)
            &&& b.face is None
            &&& b.next == Some(
                if i >= 1 {
                    (2 * i - 1) as usize
                } else {
                    0usize
                },
            )
        }
}

impl Line {
    /// The boundary loop through the given points, in order: one vertex per
    /// point, two twinned half-edges per segment, no faces; following `next`
    /// for twice the segment count returns to the start.
    pub fn build(points: Vec<Vec3>) -> (m: HalfEdgeMesh)
        requires
            points@.len() >= 2,
        ensures
            m.wf(),
            m.n_v() == points@.len(),
            m.positions@ == points@,
            m.n_f() == 0,
            m.n_h() == 2 * (points@.len() - 1),
            line_shape(m, points@.len() as int),
            forall|v: int| 0 <= v < m.n_v() ==> (#[trigger] m.vx(v)).halfedge is Some,
            forall|h: int|
                0 <= h < m.n_h() ==> #[trigger] next_n(m, h, m.n_h() as nat) == Some(h),
    {
        let ghost pos0 = points@;
        let npos = points.len();
        let segs = npos - 1;
        let mut m = HalfEdgeMesh {
            vertices: Vec::new(),
            halfedges: Vec::new(),
            faces: Vec::new(),
            positions: points,
            normals: Vec::new(),
            uvs: Vec::new(),
            smooth_normals: true,
        };
        let mut i: usize = 0;
        while i < npos
            invariant
                0 <= i <= npos,
                m.vertices@.len() == i,
                forall|v: int| 0 <= v < i ==> (#[trigger] m.vx(v)).halfedge is None,
                m.halfedges@.len() == 0,
                m.faces@.len() == 0,
                m.positions@ == pos0,
                m.normals@.len() == 0,
                m.uvs@.len() == 0,
                m.smooth_normals == true,
            decreases npos - i,
        {
            let ghost m_prev = m;
            m.vertices.push(Vertex { halfedge: None });
            proof {
                assert forall|v: int| 0 <= v < i + 1 implies (#[trigger] m.vx(v)).halfedge
                    is None by {
                    if v < i {
                        assert(m.vx(v) == m_prev.vx(v));
                    }
                }
            }
            i += 1;
        }
        // Allocate both half-edges of each segment, already twinned, and
        // record origin witnesses (the last assignment wins; any incident
        // half-edge is a valid witness).
        let mut i: usize = 0;
        while i < segs
            invariant
                0 <= i <= segs,
                segs == npos - 1,
                npos == pos0.len(),
                m.vertices@.len() == npos,
                m.halfedges@.len() == 2 * i,
                m.faces@.len() == 0,
                m.positions@ == pos0,
                m.normals@.len() == 0,
                m.uvs@.len() == 0,
                m.smooth_normals == true,
                forall|j: int|
                    0 <= j < i ==> {
                        let f = #[trigger] m.he(2 * j);
                        let b = m.he(2 * j + 1);
                        &&& f == (HalfEdge {
                            twin: Some((2 * j + 1) as usize),
                            next: None,
                            vertex: Some(j as usize),
                            face: None,
                        })
                        &&& b == (HalfEdge {
                            twin: Some((2 * j) as usize),
                            next: None,
                            vertex: Some((j + 1) as usize),
                            face: None,
                        })
                    },
                m.vertex_wit_ok(),
                i > 0 ==> forall|w: int|
                    0 <= w <= i ==> (#[trigger] m.vx(w)).halfedge is Some,
            decreases segs - i,
        {
            let ghost m_it = m;
            let h1 = m.halfedges.len();
            m.halfedges.push(HalfEdge { twin: None, next: None, vertex: Some(i), face: None });
            let h2 = m.halfedges.len();
            m.halfedges.push(
                HalfEdge { twin: Some(h1), next: None, vertex: Some(i + 1), face: None },
            );
            let mut e = m.halfedges[h1];
            e.twin = Some(h2);
            m.halfedges[h1] = e;
            let mut vx = m.vertices[i];
            vx.halfedge = Some(h1);
            m.vertices[i] = vx;
            let mut vx2 = m.vertices[i + 1];
            vx2.halfedge = Some(h2);
            m.vertices[i + 1] = vx2;
            proof {
                assert(h1 == 2 * i && h2 == 2 * i + 1);
                assert forall|j: int|
                    0 <= j < i + 1 implies {
                    let f = #[trigger] m.he(2 * j);
                    let b = m.he(2 * j + 1);
                    &&& f == (HalfEdge {
                        twin: Some((2 * j + 1) as usize),
                        next: None,
                        vertex: Some(j as usize),
                        face: None,
                    })
                    &&& b == (HalfEdge {
                        twin: Some((2 * j) as usize),
                        next: None,
                        vertex: Some((j + 1) as usize),
                        face: None,
                    })
                } by {
                    if j < i {
                        assert(m.he(2 * j) == m_it.he(2 * j));
                        assert(m.he(2 * j + 1) == m_it.he(2 * j + 1));
                    }
                }
                assert forall|w: int|
                    0 <= w < npos && #[trigger] m.vx(w).halfedge is Some implies {
                    let hw = m.vx(w).halfedge->0 as int;
                    &&& 0 <= hw < m.n_h()
                    &&& m.he(hw).vertex == Some(w as usize)
                } by {
                    if w != i && w != i + 1 {
                        assert(m.vx(w) == m_it.vx(w));
                        let hw = m.vx(w).halfedge->0 as int;
                        assert(m_it.he(hw).vertex == Some(w as usize));
                        assert(hw != h1 as int && hw != h2 as int);
                        assert(m.he(hw) == m_it.he(hw));
                    }
                }
                assert forall|w: int| 0 <= w <= i + 1 implies (#[trigger] m.vx(w)).halfedge
                    is Some by {
                    if w != i && w != i + 1 {
                        assert(m.vx(w) == m_it.vx(w));
                    }
                }
            }
            i += 1;
        }
        // Chain the forward half-edges one way, the backward ones the other
        // way, and join the chains at both ends into one loop.
        let nh = m.halfedges.len();
        let ghost m_alloc = m;
        let mut i: usize = 0;
        while i < segs
            invariant
                0 <= i <= segs,
                segs == npos - 1,
                npos == pos0.len(),
                m.vertices@ == m_alloc.vertices@,
                m.halfedges@.len() == 2 * segs,
                nh == 2 * segs,
                m.faces@.len() == 0,
                m.positions@ == pos0,
                m.normals@.len() == 0,
                m.uvs@.len() == 0,
                m.smooth_normals == true,
                forall|j: int|
                    0 <= j < segs ==> {
                        let f = #[trigger] m.he(2 * j);
                        let b = m.he(2 * j + 1);
                        &&& f.twin == Some((2 * j + 1) as usize)
                        &&& f.vertex == Some(j as usize)
                        &&& f.face is None
                        &&& b.twin == Some((2 * j) as usize)
                        &&& b.vertex == Some((j + 1) as usize)
                        &&& b.face is None
                        &&& (j < i ==> f.next == Some(
                            if j < segs - 1 {
                                (2 * j + 2) as usize
                            } else {
                                (2 * j + 1) as usize
                            },
                        ) && b.next == Some(
                            if j >= 1 {
                                (2 * j - 1) as usize
                            } else {
                                0usize
                            },
                        ))
                        &&& (j >= i ==> f.next is None && b.next is None)
                    },
            decreases segs - i,
        {
            let ghost m_it = m;
            let h1 = 2 * i;
            let h2 = h1 + 1;
            let fnext: usize = if i + 1 < segs {
                h2 + 1
            } else {
                h2
            };
            let bnext: usize = if i >= 1 {
                h1 - 1
            } else {
                0
            };
            let mut e = m.halfedges[h1];
            e.next = Some(fnext);
            m.halfedges[h1] = e;
            let mut e2 = m.halfedges[h2];
            e2.next = Some(bnext);
            m.halfedges[h2] = e2;
            proof {
                assert forall|j: int|
                    0 <= j < segs implies {
                    let f = #[trigger] m.he(2 * j);
                    let b = m.he(2 * j + 1);
                    &&& f.twin == Some((2 * j + 1) as usize)
                    &&& f.vertex == Some(j as usize)
                    &&& f.face is None
                    &&& b.twin == Some((2 * j) as usize)
                    &&& b.vertex == Some((j + 1) as usize)
                    &&& b.face is None
                    &&& (j < i + 1 ==> f.next == Some(
                        if j < segs - 1 {
                            (2 * j + 2) as usize
                        } else {
                            (2 * j + 1) as usize
                        },
                    ) && b.next == Some(
                        if j >= 1 {
                            (2 * j - 1) as usize
                        } else {
                            0usize
                        },
                    ))
                    &&& (j >= i + 1 ==> f.next is None && b.next is None)
                } by {
                    if j != i {
                        assert(m.he(2 * j) == m_it.he(2 * j));
                        assert(m.he(2 * j + 1) == m_it.he(2 * j + 1));
                    }
                }
            }
            i += 1;
        }
        proof {
            // Origin witnesses survive the chaining pass: it never touches a
            // half-edge's origin, and both snapshots pin every origin.
            assert(m.vertex_wit_ok()) by {
                assert forall|w: int|
                    0 <= w < npos && #[trigger] m.vx(w).halfedge is Some implies {
                    let hw = m.vx(w).halfedge->0 as int;
                    &&& 0 <= hw < m.n_h()
                    &&& m.he(hw).vertex == Some(w as usize)
                } by {
                    assert(m.vx(w) == m_alloc.vx(w));
                    assert(m_alloc.vx(w).halfedge is Some);
                    let hw = m.vx(w).halfedge->0 as int;
                    assert(m_alloc.he(hw).vertex == Some(w as usize));
                    let j = hw / 2;
                    assert(hw == 2 * j || hw == 2 * j + 1);
                    assert(0 <= j < segs);
                    assert(m_alloc.he(2 * j).vertex == Some(j as usize));
                    assert(m_alloc.he(2 * j + 1).vertex == Some((j + 1) as usize));
                    assert(m.he(2 * j).vertex == Some(j as usize));
                    assert(m.he(2 * j + 1).vertex == Some((j + 1) as usize));
                }
            }
            lemma_line_wf(m, pos0.len() as int);
            assert forall|v: int| 0 <= v < m.n_v() implies (#[trigger] m.vx(v)).halfedge
                is Some by {
                assert(m.vx(v) == m_alloc.vx(v));
            }
        }
        m
    }

    /// The polyline through the exact `start` and `end` with the given
    /// interior samples in between (the caller samples the straight segment
    /// positions; the endpoints are taken verbatim).
    pub fn build_straight_line(start: Vec3, end: Vec3, interior: Vec<Vec3>) -> (m: HalfEdgeMesh)
        ensures
            m.wf(),
            m.positions@ == seq![start] + interior@ + seq![end],
            m.n_v() == interior@.len() + 2,
            m.positions@[0] == start,
            m.positions@[m.n_v() - 1] == end,
            m.n_f() == 0,
            m.n_h() == 2 * (interior@.len() + 1),
            forall|v: int| 0 <= v < m.n_v() ==> (#[trigger] m.vx(v)).halfedge is Some,
            forall|h: int|
                0 <= h < m.n_h() ==> #[trigger] next_n(m, h, m.n_h() as nat) == Some(h),
    {
        let points = assemble_endpoints(start, end, interior);
        Line::build(points)
    }

    /// The boundary loop through the given points; at least two are needed
    /// (one segment).
    pub fn build_from_points(points: Vec<Vec3>) -> (m: HalfEdgeMesh)
        requires
            points@.len() >= 2,
        ensures
            m.wf(),
            m.n_v() == points@.len(),
            m.positions@ == points@,
            m.n_f() == 0,
            m.n_h() == 2 * (points@.len() - 1),
            line_shape(m, points@.len() as int),
            forall|v: int| 0 <= v < m.n_v() ==> (#[trigger] m.vx(v)).halfedge is Some,
            forall|h: int|
                0 <= h < m.n_h() ==> #[trigger] next_n(m, h, m.n_h() as nat) == Some(h),
    {
        Line::build(points)
    }
}

/// A hanging-chain curve between two endpoints.
pub struct Catenary;

impl Catenary {
    /// The polyline through `start`, the interior curve samples, and `end`.
    /// The first and last positions are the exact inputs, never the curve's
    /// numerically evaluated approximation of them, whatever samples the
    /// caller's solver produced.
    pub fn build(start: Vec3, end: Vec3, interior: Vec<Vec3>) -> (m: HalfEdgeMesh)
        ensures
            m.wf(),
            m.positions@ == seq![start] + interior@ + seq![end],
            m.n_v() == interior@.len() + 2,
            m.positions@[0] == start,
            m.positions@[m.n_v() - 1] == end,
            m.n_f() == 0,
            m.n_h() == 2 * (interior@.len() + 1),
            forall|v: int| 0 <= v < m.n_v() ==> (#[trigger] m.vx(v)).halfedge is Some,
            forall|h: int|
                0 <= h < m.n_h() ==> #[trigger] next_n(m, h, m.n_h() as nat) == Some(h),
    {
        let points = assemble_endpoints(start, end, interior);
        Line::build(points)
    }
}

/// `[start] + interior + [end]`, moving every point.
fn assemble_endpoints(start: Vec3, end: Vec3, interior: Vec<Vec3>) -> (r: Vec<Vec3>)
    ensures
        r@ == seq![start] + interior@ + seq![end],
        r@.len() == interior@.len() + 2,
{
    let ghost int0 = interior@;
    let mut r: Vec<Vec3> = Vec::new();
    r.push(start);
    let mut rest = interior;
    let n = rest.len();
    let mut i: usize = 0;
    while i < n
        invariant
            0 <= i <= n,
            n == int0.len(),
            rest@ == int0.skip(i as int),
            r@ == seq![start] + int0.take(i as int),
        decreases n - i,
    {
        let p = rest.remove(0);
        proof {
            assert(int0.skip(i as int)[0] == int0[i as int]);
            assert(int0.skip(i as int).remove(0) =~= int0.skip(i + 1));
            assert((seq![start] + int0.take(i as int)).push(int0[i as int]) =~= seq![start]
                + int0.take(i + 1));
        }
        r.push(p);
        i += 1;
    }
    proof {
        assert(int0.take(n as int) =~= int0);
    }
    r.push(end);
    proof {
        assert((seq![start] + int0).push(end) =~= seq![start] + int0 + seq![end]);
    }
    r
}

/// The polygon `[n-1, n-2, .., 0]`: an `n`-gon wound in reverse, used for
/// bottom caps so they face away from the side faces.
pub open spec fn rev_ngon(n: int) -> Seq<usize> {
    Seq::new(n as nat, |i: int| (n - 1 - i) as usize)
}

/// The polygon `[n, n+1, .., 2n-1]`: the top cap over the second ring.
pub open spec fn shifted_ngon(n: int) -> Seq<usize> {
    Seq::new(n as nat, |i: int| (n + i) as usize)
}

/// The cone's soup over `n` ring vertices and the apex `n`: the reversed
/// bottom cap, then one triangle per ring edge meeting the apex.
pub open spec fn cone_polys(n: int) -> Seq<Seq<usize>> {
    Seq::new(
        (n + 1) as nat,
        |k: int|
            if k == 0 {
                rev_ngon(n)
            } else {
                seq![(k - 1) as usize, (((k - 1) + 1) % n) as usize, n as usize]
            },
    )
}

/// The frustum's soup over two rings of `n` vertices: the reversed bottom
/// cap, the forward top cap, then one quad per ring edge.
pub open spec fn frustum_polys(n: int) -> Seq<Seq<usize>> {
    Seq::new(
        (n + 2) as nat,
        |k: int|
            if k == 0 {
                rev_ngon(n)
            } else if k == 1 {
                shifted_ngon(n)
            } else {
                seq![
                    (k - 2) as usize,
                    ((k - 1) % n) as usize,
                    (n + ((k - 1) % n)) as usize,
                    (n + (k - 2)) as usize,
                ]
            },
    )
}

/// The ring edge from `v` to its cyclic successor, written out as a pair.
pub open spec fn ring_pair(n: int, v: int) -> (int, int) {
    if v < n - 1 {
        (v, v + 1)
    } else {
        (0, n - 1)
    }
}

/// Which undirected edge corner `j` of cone polygon `q` claims: the bottom
/// cap walks the ring pairs in reverse, and triangle `q` claims its ring
/// pair and its two apex edges.
pub open spec fn cone_edge(n: int, q: int, j: int) -> (int, int) {
    if q == 0 {
        if j < n - 1 {
            ring_pair(n, n - 2 - j)
        } else {
            ring_pair(n, n - 1)
        }
    } else if j == 0 {
        ring_pair(n, q - 1)
    } else if j == 1 {
        (q % n, n)
    } else {
        ((q - 1), n)
    }
}

/// Corner `j` of cone polygon `q` claims exactly `cone_edge(n, q, j)`.
proof fn lemma_cone_edge(n: int, q: int, j: int)
    requires
        3 <= n,
        n + 1 <= usize::MAX,
        0 <= q < n + 1,
        0 <= j < cone_polys(n)[q].len(),
    ensures
        poly_edge(cone_polys(n)[q], j) == cone_edge(n, q, j),
{
    let p = cone_polys(n)[q];
    if q == 0 {
        assert(p =~= rev_ngon(n));
        assert(p.len() == n);
        if j < n - 1 {
            vstd::arithmetic::div_mod::lemma_small_mod((j + 1) as nat, n as nat);
            assert(p[j] == n - 1 - j && p[j + 1] == n - 2 - j);
        } else {
            vstd::arithmetic::div_mod::lemma_mod_self_0(n);
            assert(p[j] == 0 && p[0] == n - 1);
        }
    } else {
        assert(p =~= seq![(q - 1) as usize, ((q - 1 + 1) % n) as usize, n as usize]);
        assert(p.len() == 3);
        vstd::arithmetic::div_mod::lemma_mod_bound(q, n);
        if j == 0 {
            vstd::arithmetic::div_mod::lemma_small_mod(1nat, 3nat);
            if q - 1 < n - 1 {
                vstd::arithmetic::div_mod::lemma_small_mod(q as nat, n as nat);
            } else {
                vstd::arithmetic::div_mod::lemma_mod_self_0(n);
            }
        } else if j == 1 {
            vstd::arithmetic::div_mod::lemma_small_mod(2nat, 3nat);
        } else {
            vstd::arithmetic::div_mod::lemma_mod_self_0(3);
        }
    }
}

/// Ring pairs are distinct for distinct ring vertices.
proof fn lemma_ring_pair_inj(n: int, v: int, w: int)
    requires
        3 <= n,
        0 <= v < n,
        0 <= w < n,
        ring_pair(n, v) == ring_pair(n, w),
    ensures
        v == w,
{
}

/// A count of three or more exhibits three distinct positions.
proof fn lemma_count_ge3(s: Seq<(int, int)>, e: (int, int))
    requires
        count_pairs(s, e) >= 3,
    ensures
        exists|i1: int, i2: int, i3: int|
            #![trigger s[i1], s[i2], s[i3]]
            0 <= i1 < i2 < i3 < s.len() && s[i1] == e && s[i2] == e && s[i3] == e,
    decreases s.len(),
{
    if s.last() == e && count_pairs(s.drop_last(), e) >= 2 {
        lemma_count_ge2(s.drop_last(), e);
        let (i1, i2) = choose|i1: int, i2: int|
            #![trigger s.drop_last()[i1], s.drop_last()[i2]]
            0 <= i1 < i2 < s.drop_last().len() && s.drop_last()[i1] == e && s.drop_last()[i2] == e;
        let i3 = s.len() - 1;
        assert(s[i1] == e && s[i2] == e && s[i3] == e);
    } else {
        lemma_count_ge3(s.drop_last(), e);
        let (i1, i2, i3) = choose|i1: int, i2: int, i3: int|
            #![trigger s.drop_last()[i1], s.drop_last()[i2], s.drop_last()[i3]]
            0 <= i1 < i2 < i3 < s.drop_last().len() && s.drop_last()[i1] == e && s.drop_last()[i2]
                == e && s.drop_last()[i3] == e;
        assert(s[i1] == e && s[i2] == e && s[i3] == e);
    }
}

/// A count of two or more exhibits two distinct positions.
proof fn lemma_count_ge2(s: Seq<(int, int)>, e: (int, int))
    requires
        count_pairs(s, e) >= 2,
    ensures
        exists|i1: int, i2: int|
            #![trigger s[i1], s[i2]]
            0 <= i1 < i2 < s.len() && s[i1] == e && s[i2] == e,
    decreases s.len(),
{
    if s.last() == e && count_pairs(s.drop_last(), e) >= 1 {
        lemma_count_absent_or_member(s.drop_last(), e);
        let i1 = choose|i1: int| 0 <= i1 < s.drop_last().len() && s.drop_last()[i1] == e;
        let i2 = s.len() - 1;
        assert(s[i1] == e && s[i2] == e);
    } else {
        lemma_count_ge2(s.drop_last(), e);
        let (i1, i2) = choose|i1: int, i2: int|
            #![trigger s.drop_last()[i1], s.drop_last()[i2]]
            0 <= i1 < i2 < s.drop_last().len() && s.drop_last()[i1] == e && s.drop_last()[i2] == e;
        assert(s[i1] == e && s[i2] == e);
    }
}

/// At most two cone corners claim any one undirected edge: a ring pair is
/// claimed once by the bottom cap and once by its side triangle; an apex
/// pair once each by the two triangles beside it.
proof fn lemma_cone_sources(n: int, q1: int, j1: int, q2: int, j2: int, q3: int, j3: int)
    requires
        3 <= n,
        n + 1 <= usize::MAX,
        0 <= q1 < n + 1 && 0 <= j1 < cone_polys(n)[q1].len(),
        0 <= q2 < n + 1 && 0 <= j2 < cone_polys(n)[q2].len(),
        0 <= q3 < n + 1 && 0 <= j3 < cone_polys(n)[q3].len(),
        cone_edge(n, q1, j1) == cone_edge(n, q2, j2),
        cone_edge(n, q2, j2) == cone_edge(n, q3, j3),
    ensures
        (q1, j1) == (q2, j2) || (q1, j1) == (q3, j3) || (q2, j2) == (q3, j3),
{
    if (q1, j1) == (q2, j2) || (q1, j1) == (q3, j3) || (q2, j2) == (q3, j3) {
        return ;
    }
    let e = cone_edge(n, q1, j1);
    // Each corner's claim is either a ring pair (both ends on the ring) or
    // an apex pair (second end is the apex); the class is readable off `e`.
    assert forall|v: int| 0 <= v < n implies (#[trigger] ring_pair(n, v)).0 < n && ring_pair(
        n,
        v,
    ).1 < n by {}
    if e.1 == n {
        // Apex pair (w, n): only triangle corners 1 and 2 claim apex pairs,
        // and each apex pair is claimed by exactly one of each.
        let w = e.0;
        assert forall|q: int, j: int|
            0 <= q < n + 1 && 0 <= j < cone_polys(n)[q].len() && cone_edge(n, q, j)
                == e implies (j == 1 && q == (if w == 0 {
            n as int
        } else {
            w
        })) || (j == 2 && q == w + 1) by {
            if q == 0 {
                if j < n - 1 {
                    assert(ring_pair(n, n - 2 - j).1 < n);
                } else {
                    assert(ring_pair(n, n - 1).1 < n);
                }
            } else if j == 0 {
                assert(ring_pair(n, q - 1).1 < n);
            } else if j == 1 {
                assert(q % n == w);
                vstd::arithmetic::div_mod::lemma_mod_bound(q, n);
                if w == 0 {
                    if q < n {
                        vstd::arithmetic::div_mod::lemma_small_mod(q as nat, n as nat);
                    } else {
                        vstd::arithmetic::div_mod::lemma_mod_self_0(n);
                    }
                } else {
                    if q < n {
                        vstd::arithmetic::div_mod::lemma_small_mod(q as nat, n as nat);
                    } else {
                        vstd::arithmetic::div_mod::lemma_mod_self_0(n);
                    }
                }
            }
        }
        // Three distinct sources cannot all land in two slots.
    } else {
        // Ring pair: claimed once by the bottom cap (the reversed walk is a
        // bijection on ring edges) and once by the matching triangle's first
        // corner.
        assert forall|q: int, j: int|
            0 <= q < n + 1 && 0 <= j < cone_polys(n)[q].len() && cone_edge(n, q, j)
                == e implies (q == 0 && ring_pair(
            n,
            if j < n - 1 {
                n - 2 - j
            } else {
                n - 1
            },
        ) == e) || (j == 0 && q >= 1 && ring_pair(n, q - 1) == e) by {}
        // Identify the unique bottom corner and the unique triangle.
        if q1 == 0 && q2 == 0 {
            let v1 = if j1 < n - 1 {
                n - 2 - j1
            } else {
                n - 1
            };
            let v2 = if j2 < n - 1 {
                n - 2 - j2
            } else {
                n - 1
            };
            lemma_ring_pair_inj(n, v1, v2);
        } else if q1 == 0 && q3 == 0 {
            let v1 = if j1 < n - 1 {
                n - 2 - j1
            } else {
                n - 1
            };
            let v3 = if j3 < n - 1 {
                n - 2 - j3
            } else {
                n - 1
            };
            lemma_ring_pair_inj(n, v1, v3);
        } else if q2 == 0 && q3 == 0 {
            let v2 = if j2 < n - 1 {
                n - 2 - j2
            } else {
                n - 1
            };
            let v3 = if j3 < n - 1 {
                n - 2 - j3
            } else {
                n - 1
            };
            lemma_ring_pair_inj(n, v2, v3);
        } else {
            // At most one of the three is the bottom cap, so two are
            // triangle first-corners of the same ring pair.
            if q1 >= 1 && q2 >= 1 {
                lemma_ring_pair_inj(n, q1 - 1, q2 - 1);
            } else if q1 >= 1 && q3 >= 1 {
                lemma_ring_pair_inj(n, q1 - 1, q3 - 1);
            } else {
                lemma_ring_pair_inj(n, q2 - 1, q3 - 1);
            }
        }
    }
}

/// The cone's soup is always accepted: its shape is valid and no undirected
/// edge is claimed more than twice.
pub proof fn lemma_cone_ok(n: int)
    requires
        3 <= n,
        n + 1 <= usize::MAX,
    ensures
        soup_error(n + 1, cone_polys(n)) is None,
{
    let polys = cone_polys(n);
    assert(crate::builder::sizes_ok(n + 1, polys)) by {
        assert forall|p: int|
            0 <= p < polys.len() implies !poly_small(#[trigger] polys[p]) && !poly_oob(
            n + 1,
            polys[p],
        ) by {
            if p == 0 {
                assert(polys[p] =~= rev_ngon(n));
                assert forall|i: int| 0 <= i < n implies !(rev_ngon(n)[i] >= n + 1) by {
                    assert(rev_ngon(n)[i] == n - 1 - i);
                }
            } else {
                assert(polys[p].len() == 3);
                assert forall|i: int| 0 <= i < 3 implies !((#[trigger] polys[p][i]) >= n
                    + 1) by {
                    vstd::arithmetic::div_mod::lemma_mod_bound(p, n);
                }
            }
        }
    }
    lemma_sized_error_none(n + 1, polys);
    lemma_all_edges_len(polys);
    assert(manifold_ok(polys)) by {
        assert forall|e: (int, int)| claims(polys, e) <= 2 by {
            if claims(polys, e) >= 3 {
                lemma_count_ge3(all_edges(polys), e);
                let (h1, h2, h3) = choose|h1: int, h2: int, h3: int|
                    #![trigger all_edges(polys)[h1], all_edges(polys)[h2], all_edges(polys)[h3]]
                    0 <= h1 < h2 < h3 < all_edges(polys).len() && all_edges(polys)[h1] == e
                        && all_edges(polys)[h2] == e && all_edges(polys)[h3] == e;
                let (q1, j1) = cone_decompose(n, h1);
                let (q2, j2) = cone_decompose(n, h2);
                let (q3, j3) = cone_decompose(n, h3);
                lemma_cone_edge(n, q1, j1);
                lemma_cone_edge(n, q2, j2);
                lemma_cone_edge(n, q3, j3);
                assert((q1, j1) != (q2, j2) && (q1, j1) != (q3, j3) && (q2, j2) != (q3, j3));
                lemma_cone_sources(n, q1, j1, q2, j2, q3, j3);
                assert(false);
            }
        }
    }
}

/// The polygon corner behind arena slot `h` of the cone's soup.
proof fn cone_decompose(n: int, h: int) -> (r: (int, int))
    requires
        3 <= n,
        n + 1 <= usize::MAX,
        0 <= h < total_edges_cone(n),
    ensures
        0 <= r.0 < n + 1,
        0 <= r.1 < cone_polys(n)[r.0].len(),
        h == crate::builder::base(cone_polys(n), r.0) + r.1,
        all_edges(cone_polys(n))[h] == poly_edge(cone_polys(n)[r.0], r.1),
{
    let polys = cone_polys(n);
    lemma_all_edges_len(polys);
    crate::builder::lemma_he_decompose(polys, h);
    let (q, j) = choose|q: int, j: int|
        0 <= q < polys.len() && 0 <= j < (#[trigger] polys[q]).len() && h == crate::builder::base(
            polys,
            q,
        ) + #[trigger] vstd::math::clip(j);
    crate::builder::lemma_all_edges_index(polys, q, j);
    (q, j)
}

/// The cone soup's arena size, named for hints.
pub open spec fn total_edges_cone(n: int) -> int {
    crate::builder::total_edges(cone_polys(n))
}

/// The top ring's edge from `n + v` to its cyclic successor.
pub open spec fn top_pair(n: int, v: int) -> (int, int) {
    if v < n - 1 {
        (n + v, n + v + 1)
    } else {
        (n, 2 * n - 1)
    }
}

/// Which undirected edge corner `j` of frustum polygon `q` claims: the
/// reversed bottom cap and the forward top cap walk their ring pairs, and
/// quad `q` claims its bottom pair, top pair, and two vertical edges.
pub open spec fn frustum_edge(n: int, q: int, j: int) -> (int, int) {
    if q == 0 {
        if j < n - 1 {
            ring_pair(n, n - 2 - j)
        } else {
            ring_pair(n, n - 1)
        }
    } else if q == 1 {
        top_pair(n, j)
    } else if j == 0 {
        ring_pair(n, q - 2)
    } else if j == 1 {
        ((q - 1) % n, n + ((q - 1) % n))
    } else if j == 2 {
        top_pair(n, q - 2)
    } else {
        (q - 2, n + (q - 2))
    }
}

/// Corner `j` of frustum polygon `q` claims exactly `frustum_edge(n, q, j)`.
proof fn lemma_frustum_edge(n: int, q: int, j: int)
    requires
        3 <= n,
        2 * n <= usize::MAX,
        0 <= q < n + 2,
        0 <= j < frustum_polys(n)[q].len(),
    ensures
        poly_edge(frustum_polys(n)[q], j) == frustum_edge(n, q, j),
{
    let p = frustum_polys(n)[q];
    if q == 0 {
        assert(p =~= rev_ngon(n));
        if j < n - 1 {
            vstd::arithmetic::div_mod::lemma_small_mod((j + 1) as nat, n as nat);
            assert(p[j] == n - 1 - j && p[j + 1] == n - 2 - j);
        } else {
            vstd::arithmetic::div_mod::lemma_mod_self_0(n);
            assert(p[j] == 0 && p[0] == n - 1);
        }
    } else if q == 1 {
        assert(p =~= shifted_ngon(n));
        if j < n - 1 {
            vstd::arithmetic::div_mod::lemma_small_mod((j + 1) as nat, n as nat);
            assert(p[j] == n + j && p[j + 1] == n + j + 1);
        } else {
            vstd::arithmetic::div_mod::lemma_mod_self_0(n);
            assert(p[j] == 2 * n - 1 && p[0] == n);
        }
    } else {
        let v2 = (q - 1) % n;
        assert(p =~= seq![
            (q - 2) as usize,
            v2 as usize,
            (n + v2) as usize,
            (n + (q - 2)) as usize,
        ]);
        assert(p.len() == 4);
        vstd::arithmetic::div_mod::lemma_mod_bound(q - 1, n);
        if j == 0 {
            vstd::arithmetic::div_mod::lemma_small_mod(1nat, 4nat);
            if q - 2 < n - 1 {
                vstd::arithmetic::div_mod::lemma_small_mod((q - 1) as nat, n as nat);
            } else {
                vstd::arithmetic::div_mod::lemma_mod_self_0(n);
            }
        } else if j == 1 {
            vstd::arithmetic::div_mod::lemma_small_mod(2nat, 4nat);
        } else if j == 2 {
            vstd::arithmetic::div_mod::lemma_small_mod(3nat, 4nat);
            if q - 2 < n - 1 {
                vstd::arithmetic::div_mod::lemma_small_mod((q - 1) as nat, n as nat);
            } else {
                vstd::arithmetic::div_mod::lemma_mod_self_0(n);
            }
        } else {
            vstd::arithmetic::div_mod::lemma_mod_self_0(4);
        }
    }
}

/// Top pairs are distinct for distinct ring vertices.
proof fn lemma_top_pair_inj(n: int, v: int, w: int)
    requires
        3 <= n,
        0 <= v < n,
        0 <= w < n,
        top_pair(n, v) == top_pair(n, w),
    ensures
        v == w,
{
}

/// At most two frustum corners claim any one undirected edge: each cap pair
/// is shared by its cap and one quad, and each vertical edge by the two
/// quads beside it.
#[verifier::rlimit(100)]
#[verifier::spinoff_prover]
proof fn lemma_frustum_sources(n: int, q1: int, j1: int, q2: int, j2: int, q3: int, j3: int)
    requires
        3 <= n,
        2 * n <= usize::MAX,
        0 <= q1 < n + 2 && 0 <= j1 < frustum_polys(n)[q1].len(),
        0 <= q2 < n + 2 && 0 <= j2 < frustum_polys(n)[q2].len(),
        0 <= q3 < n + 2 && 0 <= j3 < frustum_polys(n)[q3].len(),
        frustum_edge(n, q1, j1) == frustum_edge(n, q2, j2),
        frustum_edge(n, q2, j2) == frustum_edge(n, q3, j3),
    ensures
        (q1, j1) == (q2, j2) || (q1, j1) == (q3, j3) || (q2, j2) == (q3, j3),
{
    if (q1, j1) == (q2, j2) || (q1, j1) == (q3, j3) || (q2, j2) == (q3, j3) {
        return ;
    }
    let e = frustum_edge(n, q1, j1);
    assert forall|v: int| 0 <= v < n implies {
        &&& (#[trigger] ring_pair(n, v)).0 < n && ring_pair(n, v).1 < n
        &&& top_pair(n, v).0 >= n && top_pair(n, v).1 >= n
    } by {}
    if e.1 < n {
        // A bottom ring pair: the bottom cap's unique corner and the unique
        // quad whose bottom edge it is.
        assert forall|q: int, j: int|
            0 <= q < n + 2 && 0 <= j < frustum_polys(n)[q].len() && frustum_edge(n, q, j)
                == e implies (q == 0 && ring_pair(
            n,
            if j < n - 1 {
                n - 2 - j
            } else {
                n - 1
            },
        ) == e) || (q >= 2 && j == 0 && ring_pair(n, q - 2) == e) by {
            if q == 1 {
                assert(top_pair(n, j).1 >= n);
            } else if q >= 2 && j == 1 {
                vstd::arithmetic::div_mod::lemma_mod_bound(q - 1, n);
            }
        }
        if q1 == 0 && q2 == 0 {
            lemma_ring_pair_inj(
                n,
                if j1 < n - 1 {
                    n - 2 - j1
                } else {
                    n - 1
                },
                if j2 < n - 1 {
                    n - 2 - j2
                } else {
                    n - 1
                },
            );
        } else if q1 == 0 && q3 == 0 {
            lemma_ring_pair_inj(
                n,
                if j1 < n - 1 {
                    n - 2 - j1
                } else {
                    n - 1
                },
                if j3 < n - 1 {
                    n - 2 - j3
                } else {
                    n - 1
                },
            );
        } else if q2 == 0 && q3 == 0 {
            lemma_ring_pair_inj(
                n,
                if j2 < n - 1 {
                    n - 2 - j2
                } else {
                    n - 1
                },
                if j3 < n - 1 {
                    n - 2 - j3
                } else {
                    n - 1
                },
            );
        } else {
            if q1 >= 2 && q2 >= 2 {
                lemma_ring_pair_inj(n, q1 - 2, q2 - 2);
            } else if q1 >= 2 && q3 >= 2 {
                lemma_ring_pair_inj(n, q1 - 2, q3 - 2);
            } else {
                lemma_ring_pair_inj(n, q2 - 2, q3 - 2);
            }
        }
    } else if e.0 >= n {
        // A top ring pair: the top cap's unique corner and the unique quad
        // whose top edge it is.
        assert forall|q: int, j: int|
            0 <= q < n + 2 && 0 <= j < frustum_polys(n)[q].len() && frustum_edge(n, q, j)
                == e implies (q == 1 && top_pair(n, j) == e) || (q >= 2 && j == 2 && top_pair(
            n,
            q - 2,
        ) == e) by {
            if q >= 2 && j == 1 {
                vstd::arithmetic::div_mod::lemma_mod_bound(q - 1, n);
            }
        }
        if q1 == 1 && q2 == 1 {
            lemma_top_pair_inj(n, j1, j2);
        } else if q1 == 1 && q3 == 1 {
            lemma_top_pair_inj(n, j1, j3);
        } else if q2 == 1 && q3 == 1 {
            lemma_top_pair_inj(n, j2, j3);
        } else {
            if q1 >= 2 && q2 >= 2 && j1 == 2 && j2 == 2 {
                lemma_top_pair_inj(n, q1 - 2, q2 - 2);
            } else if q1 >= 2 && q3 >= 2 && j1 == 2 && j3 == 2 {
                lemma_top_pair_inj(n, q1 - 2, q3 - 2);
            } else {
                lemma_top_pair_inj(n, q2 - 2, q3 - 2);
            }
        }
    } else {
        // A vertical edge `(a, n + a)`: the two quads beside ring vertex `a`.
        let a = e.0;
        assert forall|q: int, j: int|
            0 <= q < n + 2 && 0 <= j < frustum_polys(n)[q].len() && frustum_edge(n, q, j)
                == e implies (q >= 2 && j == 1 && q == (if a == 0 {
            n + 1
        } else {
            a + 1
        })) || (q >= 2 && j == 3 && q == a + 2) by {
            if q >= 2 && j == 1 {
                vstd::arithmetic::div_mod::lemma_mod_bound(q - 1, n);
                assert((q - 1) % n == a);
                if q - 1 < n {
                    vstd::arithmetic::div_mod::lemma_small_mod((q - 1) as nat, n as nat);
                } else {
                    vstd::arithmetic::div_mod::lemma_mod_self_0(n);
                }
            }
        }
    }
}

/// The frustum's soup is always accepted: its shape is valid and no
/// undirected edge is claimed more than twice.
pub proof fn lemma_frustum_ok(n: int)
    requires
        3 <= n,
        2 * n <= usize::MAX,
    ensures
        soup_error(2 * n, frustum_polys(n)) is None,
{
    let polys = frustum_polys(n);
    assert(crate::builder::sizes_ok(2 * n, polys)) by {
        assert forall|p: int|
            0 <= p < polys.len() implies !poly_small(#[trigger] polys[p]) && !poly_oob(
            2 * n,
            polys[p],
        ) by {
            if p == 0 {
                assert(polys[p] =~= rev_ngon(n));
                assert forall|i: int| 0 <= i < n implies !(rev_ngon(n)[i] >= 2 * n) by {
                    assert(rev_ngon(n)[i] == n - 1 - i);
                }
            } else if p == 1 {
                assert(polys[p] =~= shifted_ngon(n));
                assert forall|i: int| 0 <= i < n implies !(shifted_ngon(n)[i] >= 2 * n) by {
                    assert(shifted_ngon(n)[i] == n + i);
                }
            } else {
                assert(polys[p].len() == 4);
                assert forall|i: int| 0 <= i < 4 implies !((#[trigger] polys[p][i]) >= 2
                    * n) by {
                    vstd::arithmetic::div_mod::lemma_mod_bound(p - 1, n);
                }
            }
        }
    }
    lemma_sized_error_none(2 * n, polys);
    lemma_all_edges_len(polys);
    assert(manifold_ok(polys)) by {
        assert forall|e: (int, int)| claims(polys, e) <= 2 by {
            if claims(polys, e) >= 3 {
                lemma_count_ge3(all_edges(polys), e);
                let (h1, h2, h3) = choose|h1: int, h2: int, h3: int|
                    #![trigger all_edges(polys)[h1], all_edges(polys)[h2], all_edges(polys)[h3]]
                    0 <= h1 < h2 < h3 < all_edges(polys).len() && all_edges(polys)[h1] == e
                        && all_edges(polys)[h2] == e && all_edges(polys)[h3] == e;
                let (q1, j1) = frustum_decompose(n, h1);
                let (q2, j2) = frustum_decompose(n, h2);
                let (q3, j3) = frustum_decompose(n, h3);
                lemma_frustum_edge(n, q1, j1);
                lemma_frustum_edge(n, q2, j2);
                lemma_frustum_edge(n, q3, j3);
                assert((q1, j1) != (q2, j2) && (q1, j1) != (q3, j3) && (q2, j2) != (q3, j3));
                lemma_frustum_sources(n, q1, j1, q2, j2, q3, j3);
                assert(false);
            }
        }
    }
}

/// The polygon corner behind arena slot `h` of the frustum's soup.
proof fn frustum_decompose(n: int, h: int) -> (r: (int, int))
    requires
        3 <= n,
        2 * n <= usize::MAX,
        0 <= h < crate::builder::total_edges(frustum_polys(n)),
    ensures
        0 <= r.0 < n + 2,
        0 <= r.1 < frustum_polys(n)[r.0].len(),
        h == crate::builder::base(frustum_polys(n), r.0) + r.1,
        all_edges(frustum_polys(n))[h] == poly_edge(frustum_polys(n)[r.0], r.1),
{
    let polys = frustum_polys(n);
    lemma_all_edges_len(polys);
    crate::builder::lemma_he_decompose(polys, h);
    let (q, j) = choose|q: int, j: int|
        0 <= q < polys.len() && 0 <= j < (#[trigger] polys[q]).len() && h == crate::builder::base(
            polys,
            q,
        ) + #[trigger] vstd::math::clip(j);
    crate::builder::lemma_all_edges_index(polys, q, j);
    (q, j)
}


/// The partner corner claiming the same undirected edge as cone corner
/// `(q, j)`: every cone edge is shared by exactly two corners.
proof fn lemma_cone_partner(n: int, q: int, j: int) -> (r: (int, int))
    requires
        3 <= n,
        n + 1 <= usize::MAX,
        0 <= q < n + 1,
        0 <= j < cone_polys(n)[q].len(),
    ensures
        0 <= r.0 < n + 1,
        0 <= r.1 < cone_polys(n)[r.0].len(),
        (r.0, r.1) != (q, j),
        cone_edge(n, r.0, r.1) == cone_edge(n, q, j),
{
    if q == 0 {
        let v = if j < n - 1 {
            n - 2 - j
        } else {
            n - 1
        };
        (v + 1, 0)
    } else if j == 0 {
        let v = q - 1;
        let jb = if v == n - 1 {
            n - 1
        } else {
            n - 2 - v
        };
        (0, jb)
    } else if j == 1 {
        vstd::arithmetic::div_mod::lemma_mod_bound(q, n);
        let q2 = (q % n) + 1;
        assert(cone_edge(n, q2, 2) == (q % n, n));
        (q2, 2)
    } else {
        let q2 = if q - 1 == 0 {
            n as int
        } else {
            q - 1
        };
        assert(cone_edge(n, q2, 1) == (q - 1, n)) by {
            if q - 1 == 0 {
                vstd::arithmetic::div_mod::lemma_mod_self_0(n);
            } else {
                vstd::arithmetic::div_mod::lemma_small_mod((q - 1) as nat, n as nat);
            }
        }
        (q2, 1)
    }
}

/// The cone is a closed surface: every undirected edge of its soup is
/// claimed exactly twice, so the builder twins every half-edge.
pub proof fn lemma_cone_closed(n: int)
    requires
        3 <= n,
        n + 1 <= usize::MAX,
    ensures
        forall|h: int|
            0 <= h < all_edges(cone_polys(n)).len() ==> claims(
                cone_polys(n),
                #[trigger] all_edges(cone_polys(n))[h],
            ) == 2,
{
    let polys = cone_polys(n);
    lemma_cone_ok(n);
    lemma_all_edges_len(polys);
    assert(manifold_ok(polys));
    assert forall|h: int| 0 <= h < all_edges(polys).len() implies claims(
        polys,
        #[trigger] all_edges(polys)[h],
    ) == 2 by {
        let (q, j) = cone_decompose(n, h);
        lemma_cone_edge(n, q, j);
        let (q2, j2) = lemma_cone_partner(n, q, j);
        lemma_cone_edge(n, q2, j2);
        crate::builder::lemma_run_bounds(polys, q2);
        crate::builder::lemma_all_edges_index(polys, q2, j2);
        let h2 = crate::builder::base(polys, q2) + j2;
        assert(h2 != h) by {
            if q < q2 {
                crate::builder::lemma_run_bounds(polys, q);
                crate::builder::lemma_base_le(polys, q + 1, q2);
            } else if q2 < q {
                crate::builder::lemma_run_bounds(polys, q);
                crate::builder::lemma_base_le(polys, q2 + 1, q);
            }
        }
        assert(all_edges(polys)[h2] == all_edges(polys)[h]);
        if h < h2 {
            crate::builder::lemma_count_two(all_edges(polys), all_edges(polys)[h], h, h2);
        } else {
            crate::builder::lemma_count_two(all_edges(polys), all_edges(polys)[h], h2, h);
        }
    }
}

/// The partner corner claiming the same undirected edge as frustum corner
/// `(q, j)`: every frustum edge is shared by exactly two corners.
proof fn lemma_frustum_partner(n: int, q: int, j: int) -> (r: (int, int))
    requires
        3 <= n,
        2 * n <= usize::MAX,
        0 <= q < n + 2,
        0 <= j < frustum_polys(n)[q].len(),
    ensures
        0 <= r.0 < n + 2,
        0 <= r.1 < frustum_polys(n)[r.0].len(),
        (r.0, r.1) != (q, j),
        frustum_edge(n, r.0, r.1) == frustum_edge(n, q, j),
{
    if q == 0 {
        let v = if j < n - 1 {
            n - 2 - j
        } else {
            n - 1
        };
        (v + 2, 0)
    } else if q == 1 {
        (j + 2, 2)
    } else if j == 0 {
        let v = q - 2;
        let jb = if v == n - 1 {
            n - 1
        } else {
            n - 2 - v
        };
        (0, jb)
    } else if j == 1 {
        vstd::arithmetic::div_mod::lemma_mod_bound(q - 1, n);
        let a = (q - 1) % n;
        assert(frustum_edge(n, a + 2, 3) == (a, n + a));
        (a + 2, 3)
    } else if j == 2 {
        (1, q - 2)
    } else {
        let a = q - 2;
        let q2 = if a == 0 {
            n + 1
        } else {
            q - 1
        };
        assert(frustum_edge(n, q2, 1) == (a, n + a)) by {
            if a == 0 {
                vstd::arithmetic::div_mod::lemma_mod_self_0(n);
            } else {
                vstd::arithmetic::div_mod::lemma_small_mod(a as nat, n as nat);
            }
        }
        (q2, 1)
    }
}

/// The frustum is a closed surface: every undirected edge of its soup is
/// claimed exactly twice, so the builder twins every half-edge.
pub proof fn lemma_frustum_closed(n: int)
    requires
        3 <= n,
        2 * n <= usize::MAX,
    ensures
        forall|h: int|
            0 <= h < all_edges(frustum_polys(n)).len() ==> claims(
                frustum_polys(n),
                #[trigger] all_edges(frustum_polys(n))[h],
            ) == 2,
{
    let polys = frustum_polys(n);
    lemma_frustum_ok(n);
    lemma_all_edges_len(polys);
    assert(manifold_ok(polys));
    assert forall|h: int| 0 <= h < all_edges(polys).len() implies claims(
        polys,
        #[trigger] all_edges(polys)[h],
    ) == 2 by {
        let (q, j) = frustum_decompose(n, h);
        lemma_frustum_edge(n, q, j);
        let (q2, j2) = lemma_frustum_partner(n, q, j);
        lemma_frustum_edge(n, q2, j2);
        crate::builder::lemma_run_bounds(polys, q2);
        crate::builder::lemma_all_edges_index(polys, q2, j2);
        let h2 = crate::builder::base(polys, q2) + j2;
        assert(h2 != h) by {
            if q < q2 {
                crate::builder::lemma_run_bounds(polys, q);
                crate::builder::lemma_base_le(polys, q + 1, q2);
            } else if q2 < q {
                crate::builder::lemma_run_bounds(polys, q);
                crate::builder::lemma_base_le(polys, q2 + 1, q);
            }
        }
        assert(all_edges(polys)[h2] == all_edges(polys)[h]);
        if h < h2 {
            crate::builder::lemma_count_two(all_edges(polys), all_edges(polys)[h], h, h2);
        } else {
            crate::builder::lemma_count_two(all_edges(polys), all_edges(polys)[h], h2, h);
        }
    }
}

/// A cone or frustum around an axis: a bottom ring, and an apex or a top
/// ring.
pub struct Cone;

impl Cone {
    /// The single-apex cone: `verts` holds the `num_vertices` bottom-ring
    /// positions followed by the apex, giving `num_vertices + 1` vertices.
    /// Accepted exactly when its soup is (its topology never claims an edge
    /// three times; the builder's verdict is final).
    pub fn build_cone(verts: Vec<Vec3>, num_vertices: usize) -> (r: Result<
        HalfEdgeMesh,
        ConstructionError,
    >)
        requires
            verts@.len() == num_vertices + 1,
            num_vertices >= 3,
        ensures
            r is Ok,
            r matches Ok(m) ==> {
                &&& m.wf()
                &&& mesh_matches_soup(m, verts@, cone_polys(num_vertices as int))
                &&& m.n_v() == num_vertices + 1
                &&& m.positions@ == verts@
                &&& m.n_f() == num_vertices + 1
                &&& forall|h: int| 0 <= h < m.n_h() ==> (#[trigger] m.he(h)).twin is Some
            },
    {
        let n = num_vertices;
        let nv = verts.len();
        proof {
            lemma_cone_ok(n as int);
            lemma_cone_closed(n as int);
            lemma_all_edges_len(cone_polys(n as int));
        }
        let ghost spec_polys = cone_polys(n as int);
        let mut polygons: Vec<Vec<usize>> = Vec::new();
        let mut bottom: Vec<usize> = Vec::new();
        let mut i: usize = 0;
        while i < n
            invariant
                0 <= i <= n,
                bottom@.len() == i,
                forall|j: int| 0 <= j < i ==> #[trigger] bottom@[j] == n - 1 - j,
            decreases n - i,
        {
            bottom.push(n - 1 - i);
            i += 1;
        }
        proof {
            assert(bottom@ =~= rev_ngon(n as int));
        }
        polygons.push(bottom);
        let mut v: usize = 0;
        while v < n
            invariant
                0 <= v <= n,
                n >= 3,
                polygons@.len() == v + 1,
                polys_view(&polygons) == spec_polys.take(v + 1),
                spec_polys == cone_polys(n as int),
            decreases n - v,
        {
            let mut tri: Vec<usize> = Vec::new();
            tri.push(v);
            tri.push((v + 1) % n);
            tri.push(n);
            proof {
                assert(tri@ =~= spec_polys[v + 1]);
            }
            polygons.push(tri);
            proof {
                assert(spec_polys.take(v + 2) =~= spec_polys.take(v + 1).push(
                    spec_polys[v + 1],
                ));
                assert(polys_view(&polygons) =~= spec_polys.take(v + 2));
            }
            v += 1;
        }
        proof {
            assert(spec_polys.take(n + 1) =~= spec_polys);
        }
        let r = HalfEdgeMesh::build_from_polygons(verts, &polygons);
        proof {
            if let Ok(ref m) = r {
                assert forall|h: int| 0 <= h < m.n_h() implies (#[trigger] m.he(h)).twin
                    is Some by {
                    assert(claims(spec_polys, all_edges(spec_polys)[h]) == 2);
                }
            }
        }
        r
    }

    /// The frustum (truncated cone): `verts` holds the bottom ring then the
    /// top ring, `num_vertices` each, giving `2 * num_vertices` vertices.
    pub fn build_truncated_cone(verts: Vec<Vec3>, num_vertices: usize) -> (r: Result<
        HalfEdgeMesh,
        ConstructionError,
    >)
        requires
            verts@.len() == 2 * num_vertices,
            num_vertices >= 3,
        ensures
            r is Ok,
            r matches Ok(m) ==> {
                &&& m.wf()
                &&& mesh_matches_soup(m, verts@, frustum_polys(num_vertices as int))
                &&& m.n_v() == 2 * num_vertices
                &&& m.positions@ == verts@
                &&& m.n_f() == num_vertices + 2
                &&& forall|h: int| 0 <= h < m.n_h() ==> (#[trigger] m.he(h)).twin is Some
            },
    {
        let n = num_vertices;
        let total = verts.len();
        proof {
            assert(2 * n <= usize::MAX);
            lemma_frustum_ok(n as int);
            lemma_frustum_closed(n as int);
            lemma_all_edges_len(frustum_polys(n as int));
        }
        let ghost spec_polys = frustum_polys(n as int);
        let mut polygons: Vec<Vec<usize>> = Vec::new();
        let mut bottom: Vec<usize> = Vec::new();
        let mut i: usize = 0;
        while i < n
            invariant
                0 <= i <= n,
                bottom@.len() == i,
                forall|j: int| 0 <= j < i ==> #[trigger] bottom@[j] == n - 1 - j,
            decreases n - i,
        {
            bottom.push(n - 1 - i);
            i += 1;
        }
        proof {
            assert(bottom@ =~= rev_ngon(n as int));
        }
        polygons.push(bottom);
        let mut top: Vec<usize> = Vec::new();
        let mut i: usize = 0;
        while i < n
            invariant
                0 <= i <= n,
                n == num_vertices,
                2 * n <= usize::MAX,
                top@.len() == i,
                forall|j: int| 0 <= j < i ==> #[trigger] top@[j] == n + j,
            decreases n - i,
        {
            top.push(n + i);
            i += 1;
        }
        proof {
            assert(top@ =~= shifted_ngon(n as int));
        }
        polygons.push(top);
        proof {
            assert(polys_view(&polygons) =~= spec_polys.take(2));
        }
        let mut v: usize = 0;
        while v < n
            invariant
                0 <= v <= n,
                n >= 3,
                n == num_vertices,
                2 * n <= usize::MAX,
                polygons@.len() == v + 2,
                polys_view(&polygons) == spec_polys.take(v + 2),
                spec_polys == frustum_polys(n as int),
            decreases n - v,
        {
            let v2 = (v + 1) % n;
            let mut quad: Vec<usize> = Vec::new();
            quad.push(v);
            quad.push(v2);
            quad.push(n + v2);
            quad.push(n + v);
            proof {
                assert(quad@ =~= spec_polys[v + 2]);
            }
            polygons.push(quad);
            proof {
                assert(spec_polys.take(v + 3) =~= spec_polys.take(v + 2).push(
                    spec_polys[v + 2],
                ));
                assert(polys_view(&polygons) =~= spec_polys.take(v + 3));
            }
            v += 1;
        }
        proof {
            assert(spec_polys.take(n + 2) =~= spec_polys);
        }
        let r = HalfEdgeMesh::build_from_polygons(verts, &polygons);
        proof {
            if let Ok(ref m) = r {
                assert forall|h: int| 0 <= h < m.n_h() implies (#[trigger] m.he(h)).twin
                    is Some by {
                    assert(claims(spec_polys, all_edges(spec_polys)[h]) == 2);
                }
            }
        }
        r
    }

    /// Dispatches on the top's shape: an apex (`verts` is the bottom ring
    /// plus the apex) or a top ring (`verts` is both rings). The caller
    /// decides which, by whether the top radius vanishes.
    pub fn build(verts: Vec<Vec3>, num_vertices: usize, apex: bool) -> (r: Result<
        HalfEdgeMesh,
        ConstructionError,
    >)
        requires
            num_vertices >= 3,
            apex ==> verts@.len() == num_vertices + 1,
            !apex ==> verts@.len() == 2 * num_vertices,
        ensures
            r is Ok,
            r matches Ok(m) ==> {
                &&& m.wf()
                &&& m.positions@ == verts@
                &&& (apex ==> mesh_matches_soup(m, verts@, cone_polys(num_vertices as int))
                    && m.n_v() == num_vertices + 1 && m.n_f() == num_vertices + 1)
                &&& (!apex ==> mesh_matches_soup(m, verts@, frustum_polys(num_vertices as int))
                    && m.n_v() == 2 * num_vertices && m.n_f() == num_vertices + 2)
                &&& forall|h: int| 0 <= h < m.n_h() ==> (#[trigger] m.he(h)).twin is Some
            },
    {
        if apex {
            Self::build_cone(verts, num_vertices)
        } else {
            Self::build_truncated_cone(verts, num_vertices)
        }
    }
}

/// One polygon of the sphere's soup: `segments` triangle fans at the top
/// pole (vertex `0`), then `segments` fans at the bottom pole (the last
/// vertex), then `(rings - 2) * segments` body quads with ring-relative
/// bases and modular wraparound within each ring.
pub open spec fn sphere_poly(s: int, r: int, k: int) -> Seq<usize> {
    if k < s {
        seq![0usize, ((k + 1) % s + 1) as usize, (k + 1) as usize]
    } else if k < 2 * s {
        let i = k - s;
        seq![
            (1 + (r - 1) * s) as usize,
            (i + s * (r - 2) + 1) as usize,
            ((i + 1) % s + s * (r - 2) + 1) as usize,
        ]
    } else {
        let t = k - 2 * s;
        let j = t / s;
        let i = t % s;
        seq![
            (j * s + 1 + i) as usize,
            (j * s + 1 + (i + 1) % s) as usize,
            ((j + 1) * s + 1 + (i + 1) % s) as usize,
            ((j + 1) * s + 1 + i) as usize,
        ]
    }
}

/// The sphere's whole soup, in the order the generator emits it.
pub open spec fn sphere_polys(s: int, r: int) -> Seq<Seq<usize>> {
    Seq::new((2 * s + (r - 2) * s) as nat, |k: int| sphere_poly(s, r, k))
}

/// A sphere from standard spherical parameterization: one apex vertex, one
/// antipodal vertex, and `rings - 1` rings of `segments` vertices between
/// them.
pub struct UVSphere;

impl UVSphere {
    /// The sphere topology over the given vertices: the top pole first, then
    /// the rings top to bottom, then the bottom pole. Pole fans are
    /// triangles, the body is quads; no body quad references a pole.
    #[verifier::loop_isolation(false)]
    pub fn build(vertices: Vec<Vec3>, segments: usize, rings: usize) -> (r: Result<
        HalfEdgeMesh,
        ConstructionError,
    >)
        requires
            segments >= 1,
            rings >= 2,
            vertices@.len() == 2 + (rings - 1) * segments,
            rings * segments + 2 <= usize::MAX,
        ensures
            r is Ok <==> soup_error(
                vertices@.len() as int,
                sphere_polys(segments as int, rings as int),
            ) is None,
            r matches Ok(m) ==> {
                &&& m.wf()
                &&& mesh_matches_soup(m, vertices@, sphere_polys(segments as int, rings as int))
                &&& m.n_v() == vertices@.len()
                &&& m.positions@ == vertices@
                &&& m.n_f() == 2 * segments + (rings - 2) * segments
            },
    {
        let s = segments;
        let r = rings;
        let nv = vertices.len();
        let ghost si = s as int;
        let ghost ri = r as int;
        let ghost spec_polys = sphere_polys(si, ri);
        proof {
            assert((ri - 2) * si + 2 * si == ri * si) by (nonlinear_arith);
            assert((ri - 2) * si >= 0) by (nonlinear_arith)
                requires
                    ri >= 2,
                    si >= 1,
            ;
            assert((ri - 1) * si == (ri - 2) * si + si) by (nonlinear_arith);
            assert(si * (ri - 2) == (ri - 2) * si) by (nonlinear_arith);
            assert(spec_polys.len() == 2 * si + (ri - 2) * si);
        }
        let mut polygons: Vec<Vec<usize>> = Vec::new();
        // Top fans around vertex 0.
        let mut k: usize = 0;
        while k < s
            invariant
                0 <= k <= s,
                polygons@.len() == k,
                polys_view(&polygons) == spec_polys.take(k as int),
            decreases s - k,
        {
            proof {
                vstd::arithmetic::div_mod::lemma_mod_bound((k + 1) as int, si);
            }
            let mut tri: Vec<usize> = Vec::new();
            tri.push(0);
            tri.push((k + 1) % s + 1);
            tri.push(k + 1);
            proof {
                assert(tri@ =~= spec_polys[k as int]);
                assert(spec_polys.take(k + 1) =~= spec_polys.take(k as int).push(
                    spec_polys[k as int],
                ));
            }
            polygons.push(tri);
            proof {
                assert(polys_view(&polygons) =~= spec_polys.take(k + 1));
            }
            k += 1;
        }
        // Bottom fans around the last vertex.
        let bottom = nv - 1;
        let base2 = nv - 1 - s;
        proof {
            assert(bottom == 1 + (ri - 1) * si);
            assert(base2 == si * (ri - 2) + 1);
        }
        let mut i: usize = 0;
        while i < s
            invariant
                0 <= i <= s,
                polygons@.len() == s + i,
                polys_view(&polygons) == spec_polys.take(s + i),
            decreases s - i,
        {
            proof {
                vstd::arithmetic::div_mod::lemma_mod_bound((i + 1) as int, si);
            }
            let mut tri: Vec<usize> = Vec::new();
            tri.push(bottom);
            tri.push(i + base2);
            tri.push((i + 1) % s + base2);
            proof {
                assert(tri@ =~= spec_polys[s + i]);
                assert(spec_polys.take(s + i + 1) =~= spec_polys.take(s + i).push(
                    spec_polys[s + i],
                ));
            }
            polygons.push(tri);
            proof {
                assert(polys_view(&polygons) =~= spec_polys.take(s + i + 1));
            }
            i += 1;
        }
        // Body quads, ring by ring.
        let mut j: usize = 0;
        while j < r - 2
            invariant
                0 <= j <= r - 2,
                polygons@.len() == 2 * s + j * s,
                polys_view(&polygons) == spec_polys.take(2 * s + j as int * si),
            decreases r - 2 - j,
        {
            proof {
                assert(j as int * si + si == (j + 1) as int * si) by (nonlinear_arith);
                assert((j + 1) as int * si <= (ri - 2) * si) by (nonlinear_arith)
                    requires
                        0 <= j as int <= ri - 2 - 1,
                        si >= 1,
                ;
                assert(j as int * si >= 0) by (nonlinear_arith)
                    requires
                        0 <= j as int,
                        si >= 1,
                ;
            }
            let j0 = j * s + 1;
            let j1 = j0 + s;
            proof {
                assert(j0 == j as int * si + 1);
                assert(j1 == (j as int + 1) * si + 1);
            }
            let mut i: usize = 0;
            while i < s
                invariant
                    0 <= i <= s,
                    0 <= j < r - 2,
                    j0 == j as int * si + 1,
                    j1 == (j as int + 1) * si + 1,
                    polygons@.len() == 2 * s + j * s + i,
                    polys_view(&polygons) == spec_polys.take(2 * s + j as int * si + i),
                decreases s - i,
            {
                proof {
                    vstd::arithmetic::div_mod::lemma_mod_bound((i + 1) as int, si);
                }
                let mut quad: Vec<usize> = Vec::new();
                quad.push(j0 + i);
                quad.push(j0 + (i + 1) % s);
                quad.push(j1 + (i + 1) % s);
                quad.push(j1 + i);
                let ghost k = 2 * si + j as int * si + i as int;
                proof {
                    let t = k - 2 * si;
                    vstd::arithmetic::div_mod::lemma_fundamental_div_mod_converse(
                        t as int,
                        si,
                        j as int,
                        i as int,
                    );
                    assert(t / si == j as int && t % si == i as int);
                    assert(2 * si <= k < spec_polys.len());
                    assert(quad@ =~= spec_polys[k]);
                    assert(spec_polys.take(k + 1) =~= spec_polys.take(k).push(spec_polys[k]));
                }
                polygons.push(quad);
                proof {
                    assert(polys_view(&polygons) =~= spec_polys.take(k + 1));
                }
                i += 1;
            }
            j += 1;
        }
        proof {
            assert(polygons@.len() == spec_polys.len()) by {
                assert((r - 2) as int * si == (ri - 2) * si);
            }
            assert(spec_polys.take(spec_polys.len() as int) =~= spec_polys);
            assert(polys_view(&polygons) == spec_polys);
        }
        HalfEdgeMesh::build_from_polygons(vertices, &polygons)
    }
}

/// A cylinder: the frustum with two equal rings.
pub struct Cylinder;

impl Cylinder {
    /// The frustum over two equal-radius rings of `num_vertices` each.
    pub fn build(verts: Vec<Vec3>, num_vertices: usize) -> (r: Result<
        HalfEdgeMesh,
        ConstructionError,
    >)
        requires
            verts@.len() == 2 * num_vertices,
            num_vertices >= 3,
        ensures
            r is Ok,
            r matches Ok(m) ==> {
                &&& m.wf()
                &&& mesh_matches_soup(m, verts@, frustum_polys(num_vertices as int))
                &&& m.n_v() == 2 * num_vertices
                &&& m.n_f() == num_vertices + 2
                &&& m.positions@ == verts@
                &&& forall|h: int| 0 <= h < m.n_h() ==> (#[trigger] m.he(h)).twin is Some
            },
    {
        Cone::build_truncated_cone(verts, num_vertices)
    }
}

/// The loop a finished `Line::build` mesh forms is well-formed and closes
/// after exactly twice the segment count.
#[verifier::rlimit(100)]
#[verifier::spinoff_prover]
proof fn lemma_line_wf(m: HalfEdgeMesh, n: int)
    requires
        n >= 2,
        m.n_v() == n,
        m.n_h() == 2 * (n - 1),
        m.n_f() == 0,
        m.positions@.len() == n,
        m.normals@.len() == 0,
        m.uvs@.len() == 0,
        m.n_v() <= usize::MAX,
        m.n_h() <= usize::MAX,
        line_shape(m, n),
        m.vertex_wit_ok(),
    ensures
        m.wf(),
        forall|h: int| 0 <= h < m.n_h() ==> #[trigger] next_n(m, h, m.n_h() as nat) == Some(h),
{
    let segs = n - 1;
    let nh = 2 * segs;
    assert(m.links_ok()) by {
        assert forall|h: int| 0 <= h < m.n_h() implies {
            let e = #[trigger] m.he(h);
            &&& (e.twin is Some ==> 0 <= e.twin->0 < m.n_h())
            &&& (e.next is Some ==> 0 <= e.next->0 < m.n_h())
            &&& (e.vertex is Some ==> 0 <= e.vertex->0 < m.n_v())
            &&& (e.face is Some ==> 0 <= e.face->0 < m.n_f() && m.fc(e.face->0 as int).alive)
        } by {
            let j = h / 2;
            assert(h == 2 * j || h == 2 * j + 1);
            assert(0 <= j < segs);
        }
    }
    assert(m.twins_ok()) by {
        assert forall|h: int|
            0 <= h < m.n_h() && #[trigger] m.he(h).twin is Some implies {
            let t = m.he(h).twin->0 as int;
            &&& 0 <= t < m.n_h()
            &&& t != h
            &&& m.he(t).twin == Some(h as usize)
        } by {
            let j = h / 2;
            assert(h == 2 * j || h == 2 * j + 1);
            assert(0 <= j < segs);
        }
    }
    // The boundary loop in order: forward chain, then backward chain.
    let cyc = Seq::new(nh as nat, |p: int| if p < segs { 2 * p } else { 2 * (2 * segs - 1 - p) + 1 });
    assert(is_cycle(m, cyc)) by {
        assert forall|p: int| 0 <= p < nh implies #[trigger] next_of(m, cyc[p]) == Some(
            cyc[(p + 1) % (nh as int)],
        ) by {
            vstd::arithmetic::div_mod::lemma_mod_bound(p + 1, nh as int);
            if p + 1 < nh {
                vstd::arithmetic::div_mod::lemma_small_mod((p + 1) as nat, nh as nat);
            } else {
                vstd::arithmetic::div_mod::lemma_mod_self_0(nh as int);
            }
            if p < segs {
                assert(cyc[p] == 2 * p);
                assert(m.he(2 * p).next == Some(
                    if p < segs - 1 {
                        (2 * p + 2) as usize
                    } else {
                        (2 * p + 1) as usize
                    },
                ));
                if p + 1 < segs {
                    assert(cyc[p + 1] == 2 * (p + 1));
                } else {
                    assert(cyc[p + 1] == 2 * (2 * segs - 1 - (p + 1)) + 1);
                }
            } else {
                let q = 2 * segs - 1 - p;
                assert(cyc[p] == 2 * q + 1);
                assert(0 <= q < segs);
                assert(m.he(2 * q).vertex == Some(q as usize));
                assert(m.he(2 * q + 1).next == Some(
                    if q >= 1 {
                        (2 * q - 1) as usize
                    } else {
                        0usize
                    },
                ));
                if p + 1 < nh {
                    assert(cyc[p + 1] == 2 * (2 * segs - 1 - (p + 1)) + 1);
                    assert(2 * segs - 1 - (p + 1) == q - 1);
                } else {
                    assert((p + 1) % (nh as int) == 0);
                    assert(cyc[0] == 0);
                    assert(q == 0);
                }
            }
        }
    }
    assert forall|h: int| 0 <= h < m.n_h() implies #[trigger] next_n(m, h, m.n_h() as nat)
        == Some(h) by {
        let j = h / 2;
        assert(h == 2 * j || h == 2 * j + 1);
        assert(0 <= j < segs);
        let p = if h == 2 * j {
            j
        } else {
            2 * segs - 1 - j
        };
        assert(cyc[p] == h);
        lemma_cycle_iterate(m, cyc, p, nh as nat);
        assert((p + nh) % (nh as int) == p) by {
            vstd::arithmetic::div_mod::lemma_mod_self_0(nh as int);
            vstd::arithmetic::div_mod::lemma_add_mod_noop(p, nh as int, nh as int);
            vstd::arithmetic::div_mod::lemma_small_mod(p as nat, nh as nat);
            vstd::arithmetic::div_mod::lemma_mod_twice(p, nh as int);
        }
    }
}

} // verus!
