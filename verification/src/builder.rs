//! The polygon soup builder: the single normalizing entry point that turns a
//! list of positions plus a list of vertex-index polygons into a fully linked
//! half-edge mesh, rejecting malformed topology.
//!
//! Validation comes in two stages. First every polygon's shape is checked:
//! a polygon needs at least three indices, all inside the position list.
//! Then twin discovery runs: each undirected vertex pair may be claimed by at
//! most two polygon traversals; a third claim is a non-manifold edge.

use vstd::prelude::*;

use crate::mesh::{Face, HalfEdge, HalfEdgeMesh, Vec3, Vertex};

verus! {

/// Why a polygon soup was rejected.
#[derive(Clone, Copy, PartialEq, Eq, Structural, Debug)]
pub enum ConstructionError {
    /// A polygon has fewer than three indices.
    PolygonTooSmall,
    /// A polygon references a vertex index at or past the position count.
    IndexOutOfRange,
    /// Three or more polygon traversals claim one undirected edge.
    NonManifoldEdge,
}

/// The unordered pair of two vertex indices.
pub open spec fn upair(a: int, b: int) -> (int, int) {
    if a <= b {
        (a, b)
    } else {
        (b, a)
    }
}

/// The undirected edge claimed by corner `i` of polygon `p`:
/// from `p[i]` to the cyclically following corner.
pub open spec fn poly_edge(p: Seq<usize>, i: int) -> (int, int) {
    upair(p[i] as int, p[(i + 1) % (p.len() as int)] as int)
}

/// All undirected edges claimed by polygon `p`, in corner order.
pub open spec fn poly_edges(p: Seq<usize>) -> Seq<(int, int)> {
    Seq::new(p.len(), |i: int| poly_edge(p, i))
}

/// All undirected edges claimed by the soup, polygon by polygon. Its index
/// order matches the half-edge arena the builder allocates.
pub open spec fn all_edges(polys: Seq<Seq<usize>>) -> Seq<(int, int)>
    decreases polys.len(),
{
    if polys.len() == 0 {
        Seq::empty()
    } else {
        all_edges(polys.drop_last()) + poly_edges(polys.last())
    }
}

/// How often `e` occurs in `s`.
pub open spec fn count_pairs(s: Seq<(int, int)>, e: (int, int)) -> nat
    decreases s.len(),
{
    if s.len() == 0 {
        0
    } else {
        count_pairs(s.drop_last(), e) + if s.last() == e {
            1nat
        } else {
            0nat
        }
    }
}

/// How many polygon traversals claim the undirected edge `e`.
pub open spec fn claims(polys: Seq<Seq<usize>>, e: (int, int)) -> nat {
    count_pairs(all_edges(polys), e)
}

/// Index of the first half-edge of polygon `p` in the arena the builder
/// allocates: polygons occupy consecutive runs in order.
pub open spec fn base(polys: Seq<Seq<usize>>, p: int) -> int
    decreases p,
{
    if p <= 0 {
        0
    } else {
        base(polys, p - 1) + polys[p - 1].len()
    }
}

/// Total number of half-edges the soup allocates.
pub open spec fn total_edges(polys: Seq<Seq<usize>>) -> int {
    base(polys, polys.len() as int)
}

pub open spec fn poly_small(p: Seq<usize>) -> bool {
    p.len() < 3
}

pub open spec fn poly_oob(npos: int, p: Seq<usize>) -> bool {
    exists|i: int| 0 <= i < p.len() && p[i] >= npos
}

/// The first shape error, scanning polygons in order; inside one polygon the
/// size check precedes the index check.
pub open spec fn sized_error(npos: int, polys: Seq<Seq<usize>>) -> Option<ConstructionError>
    decreases polys.len(),
{
    if polys.len() == 0 {
        None
    } else if poly_small(polys.first()) {
        Some(ConstructionError::PolygonTooSmall)
    } else if poly_oob(npos, polys.first()) {
        Some(ConstructionError::IndexOutOfRange)
    } else {
        sized_error(npos, polys.drop_first())
    }
}

/// No undirected edge is claimed more than twice.
pub open spec fn manifold_ok(polys: Seq<Seq<usize>>) -> bool {
    forall|e: (int, int)| claims(polys, e) <= 2
}

/// The error `build_from_polygons` reports, or `None` when the soup is
/// accepted: shape errors first, then the manifold check.
pub open spec fn soup_error(npos: int, polys: Seq<Seq<usize>>) -> Option<ConstructionError> {
    if sized_error(npos, polys) is Some {
        sized_error(npos, polys)
    } else if !manifold_ok(polys) {
        Some(ConstructionError::NonManifoldEdge)
    } else {
        None
    }
}

/// Every polygon has at least three corners, all indexing into the positions.
pub open spec fn sizes_ok(npos: int, polys: Seq<Seq<usize>>) -> bool {
    forall|p: int|
        0 <= p < polys.len() ==> !poly_small(#[trigger] polys[p]) && !poly_oob(npos, polys[p])
}

/// A soup the builder accepts.
pub open spec fn soup_ok(npos: int, polys: Seq<Seq<usize>>) -> bool {
    sizes_ok(npos, polys) && manifold_ok(polys)
}

/// The view of a polygon list.
pub open spec fn polys_view(polygons: &Vec<Vec<usize>>) -> Seq<Seq<usize>> {
    polygons@.map_values(|p: Vec<usize>| p@)
}

/// `sized_error` scans exactly for `sizes_ok`.
pub proof fn lemma_sized_error_none(npos: int, polys: Seq<Seq<usize>>)
    ensures
        sized_error(npos, polys) is None <==> sizes_ok(npos, polys),
    decreases polys.len(),
{
    if polys.len() == 0 {
        assert(sizes_ok(npos, polys));
    } else {
        lemma_sized_error_none(npos, polys.drop_first());
        if !poly_small(polys.first()) && !poly_oob(npos, polys.first()) {
            if sizes_ok(npos, polys.drop_first()) {
                assert forall|p: int|
                    0 <= p < polys.len() implies !poly_small(#[trigger] polys[p]) && !poly_oob(
                    npos,
                    polys[p],
                ) by {
                    if p == 0 {
                        assert(polys[0] == polys.first());
                    } else {
                        assert(polys.drop_first()[p - 1] == polys[p]);
                    }
                }
            } else {
                let p = choose|p: int|
                    0 <= p < polys.drop_first().len() && (poly_small(
                        #[trigger] polys.drop_first()[p],
                    ) || poly_oob(npos, polys.drop_first()[p]));
                assert(polys.drop_first()[p] == polys[p + 1]);
                assert(!sizes_ok(npos, polys));
            }
        } else {
            assert(poly_small(polys[0]) || poly_oob(npos, polys[0]));
            assert(!sizes_ok(npos, polys));
        }
    }
}

/// Whether polygon `p` references an index at or past `npos`.
fn has_oob_index(npos: usize, p: &Vec<usize>) -> (r: bool)
    ensures
        r <==> poly_oob(npos as int, p@),
{
    let n = p.len();
    let mut i: usize = 0;
    while i < n
        invariant
            n == p@.len(),
            0 <= i <= n,
            forall|j: int| 0 <= j < i ==> (#[trigger] p@[j]) < npos,
        decreases n - i,
    {
        if p[i] >= npos {
            return true;
        }
        i += 1;
    }
    false
}

/// The shape-validation pass: reports the first undersized or out-of-range
/// polygon, in scan order.
fn check_sizes(npos: usize, polygons: &Vec<Vec<usize>>) -> (r: Option<ConstructionError>)
    ensures
        r == sized_error(npos as int, polys_view(polygons)),
{
    let n = polygons.len();
    let ghost polys = polys_view(polygons);
    proof {
        assert(polys.skip(0) =~= polys);
    }
    let mut p: usize = 0;
    while p < n
        invariant
            n == polygons@.len(),
            polys == polys_view(polygons),
            polys.len() == n,
            0 <= p <= n,
            sized_error(npos as int, polys) == sized_error(npos as int, polys.skip(p as int)),
        decreases n - p,
    {
        proof {
            assert(polys.skip(p as int).len() == n - p);
            assert(polys.skip(p as int).first() == polys[p as int]);
            assert(polys[p as int] == polygons@[p as int]@);
        }
        if polygons[p].len() < 3 {
            return Some(ConstructionError::PolygonTooSmall);
        }
        if has_oob_index(npos, &polygons[p]) {
            return Some(ConstructionError::IndexOutOfRange);
        }
        proof {
            assert(polys.skip(p as int).drop_first() =~= polys.skip(p + 1));
        }
        p += 1;
    }
    proof {
        assert(polys.skip(n as int).len() == 0);
    }
    None
}

/// `base` only reads the polygons before `p`, so dropping the last polygon
/// does not move the runs before it.
pub proof fn lemma_base_drop_last(polys: Seq<Seq<usize>>, p: int)
    requires
        polys.len() >= 1,
        0 <= p <= polys.len() - 1,
    ensures
        base(polys, p) == base(polys.drop_last(), p),
    decreases p,
{
    if p > 0 {
        lemma_base_drop_last(polys, p - 1);
        assert(polys.drop_last()[p - 1] == polys[p - 1]);
    }
}

/// The edge list is exactly as long as the half-edge arena the soup asks for.
pub proof fn lemma_all_edges_len(polys: Seq<Seq<usize>>)
    ensures
        all_edges(polys).len() == total_edges(polys),
        total_edges(polys) >= 0,
    decreases polys.len(),
{
    if polys.len() == 0 {
    } else {
        lemma_all_edges_len(polys.drop_last());
        lemma_base_drop_last(polys, polys.len() - 1);
    }
}

/// Runs come one after the other: `base` is monotone up to the total.
pub proof fn lemma_base_le(polys: Seq<Seq<usize>>, p1: int, p2: int)
    requires
        0 <= p1 <= p2 <= polys.len(),
    ensures
        base(polys, p1) <= base(polys, p2),
    decreases p2 - p1,
{
    if p1 < p2 {
        lemma_base_le(polys, p1, p2 - 1);
    }
}

/// Polygon `q`'s run `[base(q), base(q) + len(q))` lies inside the arena.
pub proof fn lemma_run_bounds(polys: Seq<Seq<usize>>, q: int)
    requires
        0 <= q < polys.len(),
    ensures
        0 <= base(polys, q),
        base(polys, q) + polys[q].len() == base(polys, q + 1),
        base(polys, q + 1) <= total_edges(polys),
    decreases q,
{
    lemma_base_le(polys, 0, q);
    lemma_base_le(polys, q + 1, polys.len() as int);
}

/// Edge `j` of polygon `q` sits at arena slot `base(q) + j`.
pub proof fn lemma_all_edges_index(polys: Seq<Seq<usize>>, q: int, j: int)
    requires
        0 <= q < polys.len(),
        0 <= j < polys[q].len(),
    ensures
        all_edges(polys)[base(polys, q) + j] == poly_edge(polys[q], j),
    decreases polys.len(),
{
    lemma_all_edges_len(polys);
    lemma_run_bounds(polys, q);
    let pre = polys.drop_last();
    lemma_all_edges_len(pre);
    if q == polys.len() - 1 {
        lemma_base_drop_last(polys, q);
        assert(all_edges(polys) == all_edges(pre) + poly_edges(polys.last()));
        assert(all_edges(pre).len() == base(polys, q));
        assert(poly_edges(polys.last())[j] == poly_edge(polys[q], j));
    } else {
        lemma_base_drop_last(polys, q);
        assert(pre[q] == polys[q]);
        lemma_all_edges_index(pre, q, j);
        lemma_run_bounds(pre, q);
        assert(all_edges(polys) == all_edges(pre) + poly_edges(polys.last()));
        assert(base(pre, q) + j < total_edges(pre));
    }
}

/// Every arena slot belongs to exactly one polygon edge.
pub proof fn lemma_he_decompose(polys: Seq<Seq<usize>>, h: int)
    requires
        0 <= h < total_edges(polys),
    ensures
        exists|q: int, j: int|
            0 <= q < polys.len() && 0 <= j < (#[trigger] polys[q]).len() && h == base(polys, q)
                + #[trigger] vstd::math::clip(j),
    decreases polys.len(),
{
    let n = polys.len() as int;
    assert(n > 0) by {
        if n == 0 {
            assert(total_edges(polys) == 0);
        }
    }
    let lastbase = base(polys, n - 1);
    lemma_run_bounds(polys, n - 1);
    if h >= lastbase {
        let q = n - 1;
        let j = h - lastbase;
        assert(0 <= j < polys[q].len() && h == base(polys, q) + vstd::math::clip(j));
    } else {
        let pre = polys.drop_last();
        lemma_base_drop_last(polys, n - 1);
        lemma_all_edges_len(pre);
        assert(total_edges(pre) == lastbase);
        lemma_he_decompose(pre, h);
        let (q, j) = choose|q: int, j: int|
            0 <= q < pre.len() && 0 <= j < (#[trigger] pre[q]).len() && h == base(pre, q)
                + #[trigger] vstd::math::clip(j);
        lemma_base_drop_last(polys, q);
        assert(pre[q] == polys[q]);
        assert(0 <= q < polys.len() && 0 <= j < polys[q].len() && h == base(polys, q)
            + vstd::math::clip(j));
    }
}

/// Arena slot `base(q) + j` holds edge `j` of polygon `q`: origin at corner
/// `j`, owned by face `q`, `next` pointing cyclically along the polygon.
pub open spec fn he_at(m: HalfEdgeMesh, polys: Seq<Seq<usize>>, q: int, j: int) -> bool {
    let k = polys[q].len() as int;
    let e = m.he(base(polys, q) + j);
    &&& e.vertex == Some(polys[q][j])
    &&& e.face == Some(q as usize)
    &&& e.next == Some((base(polys, q) + ((j + 1) % k)) as usize)
}

/// The fixed part of what the builder constructs from a soup: one vertex per
/// position (positions kept verbatim), one face per polygon with its
/// consecutive half-edge run, no optional channels. Twin links are stated
/// separately.
pub open spec fn arena_built(m: HalfEdgeMesh, pos: Seq<Vec3>, polys: Seq<Seq<usize>>) -> bool {
    &&& m.vertices@.len() == pos.len()
    &&& m.positions@ == pos
    &&& m.normals@.len() == 0
    &&& m.uvs@.len() == 0
    &&& m.smooth_normals == true
    &&& m.faces@.len() == polys.len()
    &&& forall|q: int|
        0 <= q < polys.len() ==> {
            let fc = #[trigger] m.fc(q);
            fc.halfedge == base(polys, q) && fc.degree == polys[q].len() && fc.alive
        }
    &&& m.halfedges@.len() == total_edges(polys)
    &&& forall|q: int, j: int|
        0 <= q < polys.len() && 0 <= j < polys[q].len() ==> #[trigger] he_at(m, polys, q, j)
    &&& m.vertex_wit_ok()
}

/// No twin links assigned yet.
pub open spec fn twins_unset(m: HalfEdgeMesh) -> bool {
    forall|h: int| 0 <= h < m.n_h() ==> (#[trigger] m.he(h)).twin is None
}

/// Allocates vertices, half-edges and faces for a shape-valid soup, leaving
/// twin discovery to the linking pass.
#[verifier::loop_isolation(false)]
fn build_arena(positions: Vec<Vec3>, polygons: &Vec<Vec<usize>>) -> (m: HalfEdgeMesh)
    requires
        sizes_ok(positions@.len() as int, polys_view(polygons)),
    ensures
        arena_built(m, positions@, polys_view(polygons)),
        twins_unset(m),
{
    let ghost pos0 = positions@;
    let ghost polys = polys_view(polygons);
    let npos = positions.len();
    let mut m = HalfEdgeMesh {
        vertices: Vec::new(),
        halfedges: Vec::new(),
        faces: Vec::new(),
        positions,
        normals: Vec::new(),
        uvs: Vec::new(),
        smooth_normals: true,
    };
    let mut i: usize = 0;
    while i < npos
        invariant
            0 <= i <= npos,
            m.vertices@.len() == i,
            forall|v: int| 0 <= v < i ==> (#[trigger] m.vx(v)).halfedge is None,
            m.halfedges@.len() == 0,
            m.faces@.len() == 0,
            m.positions@ == pos0,
            m.normals@.len() == 0,
            m.uvs@.len() == 0,
            m.smooth_normals == true,
        decreases npos - i,
    {
        let ghost m_prev = m;
        m.vertices.push(Vertex { halfedge: None });
        proof {
            assert forall|v: int| 0 <= v < i + 1 implies (#[trigger] m.vx(v)).halfedge
                is None by {
                if v < i {
                    assert(m.vx(v) == m_prev.vx(v));
                }
            }
        }
        i += 1;
    }
    let n = polygons.len();
    let mut p: usize = 0;
    while p < n
        invariant
            0 <= p <= n,
            m.vertices@.len() == npos,
            m.positions@ == pos0,
            m.normals@.len() == 0,
            m.uvs@.len() == 0,
            m.smooth_normals == true,
            m.faces@.len() == p,
            forall|q: int|
                0 <= q < p ==> {
                    let fc = #[trigger] m.fc(q);
                    fc.halfedge == base(polys, q) && fc.degree == polys[q].len() && fc.alive
                },
            m.halfedges@.len() == base(polys, p as int),
            forall|q: int, j: int|
                0 <= q < p && 0 <= j < polys[q].len() ==> #[trigger] he_at(m, polys, q, j),
            twins_unset(m),
            m.vertex_wit_ok(),
        decreases n - p,
    {
        let k = polygons[p].len();
        let b = m.halfedges.len();
        proof {
            assert(polys[p as int] == polygons@[p as int]@);
            assert(!poly_small(polys[p as int]) && !poly_oob(npos as int, polys[p as int]));
        }
        let ghost m_start = m;
        // Allocate this polygon's half-edges and record origin witnesses.
        let mut j: usize = 0;
        while j < k
            invariant
                0 <= j <= k,
                m.halfedges@.len() == b + j,
                m.vertices@.len() == npos,
                m.positions@ == pos0,
                m.normals@.len() == 0,
                m.uvs@.len() == 0,
                m.smooth_normals == true,
                m.faces@ == m_start.faces@,
                forall|h: int| 0 <= h < b ==> #[trigger] m.he(h) == m_start.he(h),
                forall|jj: int|
                    0 <= jj < j ==> #[trigger] m.he(b + jj) == (HalfEdge {
                        twin: None,
                        next: None,
                        vertex: Some(polys[p as int][jj]),
                        face: Some(p),
                    }),
                m.vertex_wit_ok(),
            decreases k - j,
        {
            let ghost m_iter = m;
            let v = polygons[p][j];
            proof {
                assert(polys[p as int][j as int] == v);
                assert(v < npos) by {
                    assert(!poly_oob(npos as int, polys[p as int]));
                }
            }
            let h = m.halfedges.len();
            m.halfedges.push(HalfEdge { twin: None, next: None, vertex: Some(v), face: Some(p) });
            let ghost m_mid = m;
            let mut vx = m.vertices[v];
            vx.halfedge = Some(h);
            m.vertices[v] = vx;
            proof {
                assert(m.vertices@ == m_iter.vertices@.update(v as int, vx));
                assert(m.halfedges@ == m_iter.halfedges@.push(
                    HalfEdge { twin: None, next: None, vertex: Some(v), face: Some(p) },
                ));
                assert forall|w: int|
                    0 <= w < npos && #[trigger] m.vx(w).halfedge is Some implies {
                    let hw = m.vx(w).halfedge->0 as int;
                    &&& 0 <= hw < m.n_h()
                    &&& m.he(hw).vertex == Some(w as usize)
                } by {
                    if w != v {
                        assert(m.vx(w) == m_iter.vx(w));
                        let hw = m.vx(w).halfedge->0 as int;
                        assert(m_iter.he(hw).vertex == Some(w as usize));
                        assert(m.he(hw) == m_iter.he(hw));
                    } else {
                        assert(m.vx(v as int).halfedge == Some(h));
                        assert(m.he(h as int).vertex == Some(v));
                    }
                }
                assert forall|hh: int| 0 <= hh < b implies #[trigger] m.he(hh) == m_start.he(
                    hh,
                ) by {
                    assert(m.he(hh) == m_iter.he(hh));
                }
                assert forall|jj: int| 0 <= jj < j + 1 implies #[trigger] m.he(b + jj)
                    == (HalfEdge {
                    twin: None,
                    next: None,
                    vertex: Some(polys[p as int][jj]),
                    face: Some(p),
                }) by {
                    if jj < j {
                        assert(m.he(b + jj) == m_iter.he(b + jj));
                    } else {
                        assert(b + jj == h as int);
                    }
                }
            }
            j += 1;
        }
        let nb = m.halfedges.len();
        // Chain `next` cyclically around the polygon.
        let ghost m_alloc = m;
        let mut j: usize = 0;
        while j < k
            invariant
                0 <= j <= k,
                m.halfedges@.len() == b + k,
                nb == b + k,
                m.vertices@ == m_alloc.vertices@,
                m.positions@ == pos0,
                m.normals@.len() == 0,
                m.uvs@.len() == 0,
                m.smooth_normals == true,
                m.faces@ == m_start.faces@,
                forall|h: int| 0 <= h < b ==> #[trigger] m.he(h) == m_start.he(h),
                forall|jj: int|
                    j <= jj < k ==> #[trigger] m.he(b + jj) == (HalfEdge {
                        twin: None,
                        next: None,
                        vertex: Some(polys[p as int][jj]),
                        face: Some(p),
                    }),
                forall|jj: int|
                    0 <= jj < j ==> #[trigger] m.he(b + jj) == (HalfEdge {
                        twin: None,
                        next: Some((b + ((jj + 1) % (k as int))) as usize),
                        vertex: Some(polys[p as int][jj]),
                        face: Some(p),
                    }),
                m.vertex_wit_ok(),
            decreases k - j,
        {
            let t: usize = if j + 1 == k {
                b
            } else {
                b + j + 1
            };
            proof {
                if j + 1 == k {
                    vstd::arithmetic::div_mod::lemma_mod_self_0(k as int);
                    assert((j + 1) % (k as int) == 0);
                } else {
                    vstd::arithmetic::div_mod::lemma_small_mod((j + 1) as nat, k as nat);
                }
                assert(t == b + (((j + 1) as int) % (k as int)));
            }
            let h = b + j;
            let ghost prev = m;
            let mut e = m.halfedges[h];
            e.next = Some(t);
            m.halfedges[h] = e;
            proof {
                assert(m.halfedges@ == prev.halfedges@.update(h as int, e));
                assert forall|hh: int| 0 <= hh < b implies #[trigger] m.he(hh) == m_start.he(
                    hh,
                ) by {
                    assert(prev.he(hh) == m_start.he(hh));
                }
                assert forall|jj: int| j + 1 <= jj < k implies #[trigger] m.he(b + jj)
                    == (HalfEdge {
                    twin: None,
                    next: None,
                    vertex: Some(polys[p as int][jj]),
                    face: Some(p),
                }) by {
                    assert(prev.he(b + jj).next is None);
                }
                assert forall|jj: int| 0 <= jj < j + 1 implies #[trigger] m.he(b + jj)
                    == (HalfEdge {
                    twin: None,
                    next: Some((b + ((jj + 1) % (k as int))) as usize),
                    vertex: Some(polys[p as int][jj]),
                    face: Some(p),
                }) by {
                    if jj < j {
                        assert(prev.he(b + jj).next == Some(
                            (b + ((jj + 1) % (k as int))) as usize,
                        ));
                    }
                }
                assert forall|w: int|
                    0 <= w < npos && #[trigger] m.vx(w).halfedge is Some implies {
                    let hw = m.vx(w).halfedge->0 as int;
                    &&& 0 <= hw < m.n_h()
                    &&& m.he(hw).vertex == Some(w as usize)
                } by {
                    assert(prev.vx(w) == m.vx(w));
                    let hw = m.vx(w).halfedge->0 as int;
                    assert(prev.he(hw).vertex == Some(w as usize));
                    assert(m.he(hw).vertex == prev.he(hw).vertex);
                }
            }
            j += 1;
        }
        let ghost m_chained = m;
        m.faces.push(Face { halfedge: b, degree: k, alive: true });
        proof {
            assert(m.halfedges@ == m_chained.halfedges@);
            assert(m.vertices@ == m_chained.vertices@);
            lemma_run_bounds(polys, p as int);
            assert(base(polys, p + 1) == b + k);
            assert forall|q: int, j: int|
                0 <= q < p + 1 && 0 <= j < polys[q].len() implies #[trigger] he_at(
                m,
                polys,
                q,
                j,
            ) by {
                lemma_run_bounds(polys, q);
                if q < p {
                    assert(he_at(m_start, polys, q, j));
                    assert(base(polys, q) + j < base(polys, p as int)) by {
                        lemma_base_le(polys, q + 1, p as int);
                    }
                    assert(m_chained.he(base(polys, q) + j) == m_start.he(base(polys, q) + j));
                    assert(m.he(base(polys, q) + j) == m_chained.he(base(polys, q) + j));
                } else {
                    assert(m_chained.he(b + j) == (HalfEdge {
                        twin: None,
                        next: Some((b + ((j + 1) % (k as int))) as usize),
                        vertex: Some(polys[p as int][j]),
                        face: Some(p),
                    }));
                    assert(m.he(b + j) == m_chained.he(b + j));
                }
            }
            assert forall|w: int|
                0 <= w < npos && #[trigger] m.vx(w).halfedge is Some implies {
                let hw = m.vx(w).halfedge->0 as int;
                &&& 0 <= hw < m.n_h()
                &&& m.he(hw).vertex == Some(w as usize)
            } by {
                assert(m.vx(w) == m_chained.vx(w));
                let hw = m.vx(w).halfedge->0 as int;
                assert(m_chained.he(hw).vertex == Some(w as usize));
                assert(m.he(hw) == m_chained.he(hw));
            }
            assert forall|h: int| 0 <= h < m.n_h() implies (#[trigger] m.he(h)).twin is None by {
                assert(m.he(h) == m_chained.he(h));
                if h >= b {
                    let jj = h - b;
                    assert(m_chained.he(b + jj).twin is None);
                } else {
                    assert(m_chained.he(h) == m_start.he(h));
                }
            }
            assert forall|q: int|
                0 <= q < p + 1 implies {
                let fc = #[trigger] m.fc(q);
                fc.halfedge == base(polys, q) && fc.degree == polys[q].len() && fc.alive
            } by {
                if q < p {
                    assert(m.fc(q) == m_start.fc(q));
                } else {
                    assert(m.fc(q) == (Face { halfedge: b, degree: k, alive: true }));
                    assert(b == base(polys, q));
                }
            }
        }
        p += 1;
    }
    proof {
        lemma_all_edges_len(polys);
    }
    m
}

/// The undirected edge a half-edge traverses: its origin paired with the
/// origin of its successor.
pub open spec fn pair_at(m: HalfEdgeMesh, h: int) -> (int, int) {
    upair(m.he(h).vertex->0 as int, m.he(m.he(h).next->0 as int).vertex->0 as int)
}

/// In a freshly built arena every half-edge has an origin inside the vertex
/// list, a successor and a live face, and traverses exactly its slot's edge
/// of the soup.
pub proof fn lemma_arena_heads(m: HalfEdgeMesh, pos: Seq<Vec3>, polys: Seq<Seq<usize>>, h: int)
    requires
        arena_built(m, pos, polys),
        sizes_ok(pos.len() as int, polys),
        m.n_h() <= usize::MAX,
        0 <= h < m.n_h(),
    ensures
        m.he(h).vertex is Some && 0 <= m.he(h).vertex->0 < m.n_v(),
        m.he(h).next is Some && 0 <= m.he(h).next->0 < m.n_h(),
        m.he(h).face is Some && 0 <= m.he(h).face->0 < m.n_f() && m.fc(m.he(h).face->0 as int).alive,
        pair_at(m, h) == all_edges(polys)[h],
{
    lemma_all_edges_len(polys);
    lemma_he_decompose(polys, h);
    let (q, j) = choose|q: int, j: int|
        0 <= q < polys.len() && 0 <= j < (#[trigger] polys[q]).len() && h == base(polys, q)
            + #[trigger] vstd::math::clip(j);
    assert(h == base(polys, q) + j);
    let k = polys[q].len() as int;
    lemma_run_bounds(polys, q);
    assert(he_at(m, polys, q, j));
    assert(!poly_oob(pos.len() as int, polys[q]));
    assert(polys[q][j] < pos.len());
    let j2 = (j + 1) % k;
    assert(0 <= j2 < k) by {
        vstd::arithmetic::div_mod::lemma_mod_bound(j + 1, k);
    }
    assert(he_at(m, polys, q, j2));
    assert(m.he(h).next == Some((base(polys, q) + j2) as usize));
    assert(base(polys, q) + j2 < total_edges(polys));
    assert(m.he(base(polys, q) + j2).vertex == Some(polys[q][j2]));
    assert(pair_at(m, h) == upair(polys[q][j] as int, polys[q][j2] as int));
    lemma_all_edges_index(polys, q, j);
    assert(all_edges(polys)[h] == poly_edge(polys[q], j));
}

/// Counting an element across `push`.
proof fn lemma_count_push(s: Seq<(int, int)>, e: (int, int), x: (int, int))
    ensures
        count_pairs(s.push(x), e) == count_pairs(s, e) + if x == e {
            1nat
        } else {
            0nat
        },
{
    assert(s.push(x).drop_last() =~= s);
    assert(s.push(x).last() == x);
}

/// The next prefix is the current prefix plus the current element.
proof fn lemma_take_push(s: Seq<(int, int)>, i: int)
    requires
        0 <= i < s.len(),
    ensures
        s.take(i + 1) == s.take(i).push(s[i]),
{
    assert(s.take(i + 1) =~= s.take(i).push(s[i]));
}

/// Prefix counts never exceed the whole sequence's count.
proof fn lemma_count_take_le(s: Seq<(int, int)>, e: (int, int), i: int)
    requires
        0 <= i <= s.len(),
    ensures
        count_pairs(s.take(i), e) <= count_pairs(s, e),
    decreases s.len() - i,
{
    if i == s.len() {
        assert(s.take(i) =~= s);
    } else {
        lemma_take_push(s, i);
        lemma_count_push(s.take(i), e, s[i]);
        lemma_count_take_le(s, e, i + 1);
    }
}

/// An occurrence witnesses a count of at least one.
proof fn lemma_count_member(s: Seq<(int, int)>, e: (int, int), i: int)
    requires
        0 <= i < s.len(),
        s[i] == e,
    ensures
        count_pairs(s, e) >= 1,
    decreases s.len(),
{
    if i == s.len() - 1 {
    } else {
        assert(s.drop_last()[i] == e);
        lemma_count_member(s.drop_last(), e, i);
    }
}

/// Two distinct occurrences witness a count of at least two.
pub proof fn lemma_count_two(s: Seq<(int, int)>, e: (int, int), i1: int, i2: int)
    requires
        0 <= i1 < i2 < s.len(),
        s[i1] == e,
        s[i2] == e,
    ensures
        count_pairs(s, e) >= 2,
    decreases s.len(),
{
    if i2 == s.len() - 1 {
        assert(s.drop_last()[i1] == e);
        lemma_count_member(s.drop_last(), e, i1);
    } else {
        assert(s.drop_last()[i1] == e && s.drop_last()[i2] == e);
        lemma_count_two(s.drop_last(), e, i1, i2);
    }
}

/// The twin links match the soup's claim counts: a half-edge is twinned
/// exactly when its undirected edge is claimed twice, and twins traverse the
/// same undirected edge in a symmetric, irreflexive pairing.
pub open spec fn twins_linked(m: HalfEdgeMesh, polys: Seq<Seq<usize>>) -> bool {
    forall|h: int|
        0 <= h < m.n_h() ==> {
            &&& ((#[trigger] m.he(h)).twin is Some <==> claims(polys, all_edges(polys)[h]) == 2)
            &&& (m.he(h).twin is Some ==> {
                let t = m.he(h).twin->0 as int;
                &&& 0 <= t < m.n_h()
                &&& t != h
                &&& m.he(t).twin == Some(h as usize)
                &&& all_edges(polys)[t] == all_edges(polys)[h]
            })
        }
}

/// What `build_from_polygons` returns on success: the arena laid out polygon
/// by polygon, with twins matching the soup's edge claims.
pub open spec fn mesh_matches_soup(m: HalfEdgeMesh, pos: Seq<Vec3>, polys: Seq<Seq<usize>>) -> bool {
    &&& arena_built(m, pos, polys)
    &&& twins_linked(m, polys)
}

/// The unordered pair of an edge-list entry: the pair itself, the first
/// half-edge that claimed it, and whether a second claim twinned it.
pub open spec fn en_pair(en: (usize, usize, usize, bool)) -> (int, int) {
    (en.0 as int, en.1 as int)
}

/// Finds the entry recording the unordered pair `(pa, pb)`.
fn find_entry(elist: &Vec<(usize, usize, usize, bool)>, pa: usize, pb: usize) -> (r: Option<usize>)
    ensures
        r matches Some(idx) ==> idx < elist@.len() && elist@[idx as int].0 == pa
            && elist@[idx as int].1 == pb,
        r is None ==> forall|idx: int|
            0 <= idx < elist@.len() ==> !((#[trigger] elist@[idx]).0 == pa && elist@[idx].1 == pb),
{
    let n = elist.len();
    let mut i: usize = 0;
    while i < n
        invariant
            n == elist@.len(),
            0 <= i <= n,
            forall|idx: int|
                0 <= idx < i ==> !((#[trigger] elist@[idx]).0 == pa && elist@[idx].1 == pb),
        decreases n - i,
    {
        let en = elist[i];
        if en.0 == pa && en.1 == pb {
            return Some(i);
        }
        i += 1;
    }
    None
}

/// The twin-discovery pass: pairs half-edges claiming the same undirected
/// edge, and rejects the soup when a third claim appears.
#[verifier::loop_isolation(false)]
#[verifier::rlimit(100)]
fn link_twins(m: HalfEdgeMesh, polygons: &Vec<Vec<usize>>) -> (r: Result<
    HalfEdgeMesh,
    ConstructionError,
>)
    requires
        arena_built(m, m.positions@, polys_view(polygons)),
        twins_unset(m),
        sizes_ok(m.positions@.len() as int, polys_view(polygons)),
    ensures
        r is Ok <==> manifold_ok(polys_view(polygons)),
        r matches Err(e) ==> e == ConstructionError::NonManifoldEdge,
        r matches Ok(mm) ==> mesh_matches_soup(mm, m.positions@, polys_view(polygons)),
{
    let ghost polys = polys_view(polygons);
    let ghost pos0 = m.positions@;
    let ghost m0 = m;
    let mut m = m;
    let nh = m.halfedges.len();
    let nv = m.vertices.len();
    let nf = m.faces.len();
    proof {
        lemma_all_edges_len(polys);
    }
    let ghost pairs = all_edges(polys);
    let mut elist: Vec<(usize, usize, usize, bool)> = Vec::new();
    let mut h: usize = 0;
    while h < nh
        invariant
            0 <= h <= nh,
            m.vertices@ == m0.vertices@,
            m.positions@ == m0.positions@,
            m.faces@ == m0.faces@,
            m.normals@ == m0.normals@,
            m.uvs@ == m0.uvs@,
            m.smooth_normals == m0.smooth_normals,
            m.halfedges@.len() == nh,
            forall|x: int|
                0 <= x < nh ==> {
                    let e1 = #[trigger] m.he(x);
                    let e0 = m0.he(x);
                    e1.vertex == e0.vertex && e1.next == e0.next && e1.face == e0.face
                },
            forall|idx: int|
                0 <= idx < elist@.len() ==> {
                    let en = #[trigger] elist@[idx];
                    &&& 0 <= (en.2 as int) < h
                    &&& en_pair(en) == pairs[en.2 as int]
                    &&& (!en.3 ==> count_pairs(pairs.take(h as int), en_pair(en)) == 1 && m.he(
                        en.2 as int,
                    ).twin is None)
                    &&& (en.3 ==> count_pairs(pairs.take(h as int), en_pair(en)) == 2)
                },
            forall|i1: int, i2: int|
                #![trigger elist@[i1], elist@[i2]]
                0 <= i1 < i2 < elist@.len() ==> en_pair(elist@[i1]) != en_pair(elist@[i2]),
            forall|e: (int, int)|
                #[trigger] count_pairs(pairs.take(h as int), e) > 0 ==> exists|idx: int|
                    0 <= idx < elist@.len() && en_pair(#[trigger] elist@[idx]) == e,
            forall|x: int|
                0 <= x < nh ==> {
                    let e1 = #[trigger] m.he(x);
                    &&& (x >= h ==> e1.twin is None)
                    &&& (x < h ==> (e1.twin is Some <==> count_pairs(pairs.take(h as int), pairs[x])
                        == 2))
                    &&& (e1.twin is Some ==> {
                        let t = e1.twin->0 as int;
                        &&& 0 <= t < h
                        &&& t != x
                        &&& m.he(t).twin == Some(x as usize)
                        &&& pairs[t] == pairs[x]
                    })
                },
        decreases nh - h,
    {
        proof {
            lemma_arena_heads(m0, pos0, polys, h as int);
            assert(m.he(h as int).vertex == m0.he(h as int).vertex);
            assert(m.he(h as int).next == m0.he(h as int).next);
        }
        let a = m.halfedges[h].vertex.unwrap();
        let nx = m.halfedges[h].next.unwrap();
        proof {
            lemma_arena_heads(m0, pos0, polys, nx as int);
            assert(m.he(nx as int).vertex == m0.he(nx as int).vertex);
        }
        let bv = m.halfedges[nx].vertex.unwrap();
        let pa: usize = if a <= bv {
            a
        } else {
            bv
        };
        let pb: usize = if a <= bv {
            bv
        } else {
            a
        };
        proof {
            assert((pa as int, pb as int) == pair_at(m0, h as int));
            assert((pa as int, pb as int) == pairs[h as int]);
            lemma_take_push(pairs, h as int);
        }
        let found = find_entry(&elist, pa, pb);
        match found {
            None => {
                proof {
                    // No entry, so this pair is unseen: its prefix count is zero.
                    assert(count_pairs(pairs.take(h as int), pairs[h as int]) == 0) by {
                        if count_pairs(pairs.take(h as int), pairs[h as int]) > 0 {
                            let idx = choose|idx: int|
                                0 <= idx < elist@.len() && en_pair(#[trigger] elist@[idx])
                                    == pairs[h as int];
                            assert(elist@[idx].0 == pa && elist@[idx].1 == pb);
                        }
                    }
                }
                let ghost el_pre = elist@;
                elist.push((pa, pb, h, false));
                proof {
                    let ghost ep = elist@;
                    assert(ep == el_pre.push((pa, pb, h, false)));
                    assert forall|idx: int| 0 <= idx < ep.len() implies {
                        let en = #[trigger] ep[idx];
                        &&& 0 <= (en.2 as int) < h + 1
                        &&& en_pair(en) == pairs[en.2 as int]
                        &&& (!en.3 ==> count_pairs(pairs.take(h + 1), en_pair(en)) == 1 && m.he(
                            en.2 as int,
                        ).twin is None)
                        &&& (en.3 ==> count_pairs(pairs.take(h + 1), en_pair(en)) == 2)
                    } by {
                        lemma_count_push(pairs.take(h as int), en_pair(ep[idx]), pairs[h as int]);
                        if idx < ep.len() - 1 {
                            // An earlier entry cannot share the new pair: its
                            // count would then already be positive.
                            if en_pair(ep[idx]) == pairs[h as int] {
                                assert(count_pairs(pairs.take(h as int), en_pair(ep[idx])) >= 1);
                            }
                        } else {
                            assert(ep[idx] == (pa, pb, h, false));
                        }
                    }
                    assert forall|i1: int, i2: int|
                        #![trigger ep[i1], ep[i2]]
                        0 <= i1 < i2 < ep.len() implies en_pair(ep[i1]) != en_pair(ep[i2]) by {
                        if i2 == ep.len() - 1 {
                            if en_pair(ep[i1]) == pairs[h as int] {
                                assert(count_pairs(pairs.take(h as int), en_pair(ep[i1])) >= 1);
                            }
                        }
                    }
                    assert forall|e: (int, int)|
                        #[trigger] count_pairs(pairs.take(h + 1), e) > 0 implies exists|idx: int|
                        0 <= idx < ep.len() && en_pair(#[trigger] ep[idx]) == e by {
                        lemma_count_push(pairs.take(h as int), e, pairs[h as int]);
                        if e == pairs[h as int] {
                            assert(en_pair(ep[ep.len() - 1]) == e);
                        } else {
                            let idx = choose|idx: int|
                                0 <= idx < el_pre.len() && en_pair(#[trigger] el_pre[idx]) == e;
                            assert(ep[idx] == el_pre[idx]);
                            assert(en_pair(ep[idx]) == e);
                        }
                    }
                    assert forall|x: int| 0 <= x < nh implies {
                        let e1 = #[trigger] m.he(x);
                        &&& (x >= h + 1 ==> e1.twin is None)
                        &&& (x < h + 1 ==> (e1.twin is Some <==> count_pairs(
                            pairs.take(h + 1),
                            pairs[x],
                        ) == 2))
                        &&& (e1.twin is Some ==> {
                            let t = e1.twin->0 as int;
                            &&& 0 <= t < h + 1
                            &&& t != x
                            &&& m.he(t).twin == Some(x as usize)
                            &&& pairs[t] == pairs[x]
                        })
                    } by {
                        lemma_count_push(pairs.take(h as int), pairs[x], pairs[h as int]);
                    }
                }
            },
            Some(idx) => {
                let en = elist[idx];
                proof {
                    assert(en_pair(en) == pairs[h as int]);
                }
                if en.3 {
                    proof {
                        // Third claim of this pair: the soup is non-manifold.
                        lemma_count_push(pairs.take(h as int), pairs[h as int], pairs[h as int]);
                        lemma_count_take_le(pairs, pairs[h as int], h + 1);
                        assert(claims(polys, pairs[h as int]) >= 3);
                    }
                    return Err(ConstructionError::NonManifoldEdge);
                }
                let first = en.2;
                let ghost m_pre = m;
                let mut e1 = m.halfedges[first];
                e1.twin = Some(h);
                m.halfedges[first] = e1;
                let mut e2 = m.halfedges[h];
                e2.twin = Some(first);
                m.halfedges[h] = e2;
                let mut en2 = en;
                en2.3 = true;
                let ghost el_pre = elist@;
                elist[idx] = en2;
                proof {
                    let ghost ep = elist@;
                    assert(ep == el_pre.update(idx as int, en2));
                    assert(m.halfedges@ == m_pre.halfedges@.update(first as int, e1).update(
                        h as int,
                        e2,
                    ));
                    assert(first != h && (first as int) < h);
                    assert(en_pair(en2) == en_pair(en));
                    assert forall|i1: int| 0 <= i1 < ep.len() implies en_pair(#[trigger] ep[i1])
                        == en_pair(el_pre[i1]) by {
                        if i1 == idx {
                            assert(el_pre[i1] == en);
                        }
                    }
                    assert forall|x: int| 0 <= x < nh implies {
                        let eh = #[trigger] m.he(x);
                        let e0 = m0.he(x);
                        eh.vertex == e0.vertex && eh.next == e0.next && eh.face == e0.face
                    } by {
                        if x != first && x != h {
                            assert(m.he(x) == m_pre.he(x));
                        }
                    }
                    assert forall|idx2: int| 0 <= idx2 < ep.len() implies {
                        let en3 = #[trigger] ep[idx2];
                        &&& 0 <= (en3.2 as int) < h + 1
                        &&& en_pair(en3) == pairs[en3.2 as int]
                        &&& (!en3.3 ==> count_pairs(pairs.take(h + 1), en_pair(en3)) == 1 && m.he(
                            en3.2 as int,
                        ).twin is None)
                        &&& (en3.3 ==> count_pairs(pairs.take(h + 1), en_pair(en3)) == 2)
                    } by {
                        lemma_count_push(pairs.take(h as int), en_pair(ep[idx2]), pairs[h as int]);
                        if idx2 == idx {
                            assert(ep[idx2] == en2);
                        } else {
                            assert(ep[idx2] == el_pre[idx2]);
                            // Distinct entries keep distinct pairs, so this
                            // entry's count is unchanged by the new claim.
                            assert(en_pair(ep[idx2]) != en_pair(en)) by {
                                if idx2 < idx {
                                    assert(en_pair(el_pre[idx2]) != en_pair(el_pre[idx as int]));
                                } else {
                                    assert(en_pair(el_pre[idx as int]) != en_pair(el_pre[idx2]));
                                }
                            }
                            if !ep[idx2].3 {
                                assert(m.he(ep[idx2].2 as int).twin is None) by {
                                    assert(ep[idx2].2 != first) by {
                                        if ep[idx2].2 == first {
                                            assert(en_pair(ep[idx2]) == pairs[first as int]);
                                        }
                                    }
                                    assert(ep[idx2].2 != h);
                                    assert(m.he(ep[idx2].2 as int) == m_pre.he(ep[idx2].2 as int));
                                }
                            }
                        }
                    }
                    assert forall|i1: int, i2: int|
                        #![trigger ep[i1], ep[i2]]
                        0 <= i1 < i2 < ep.len() implies en_pair(ep[i1]) != en_pair(ep[i2]) by {
                        assert(en_pair(el_pre[i1]) != en_pair(el_pre[i2]));
                    }
                    assert forall|e: (int, int)|
                        #[trigger] count_pairs(pairs.take(h + 1), e) > 0 implies exists|idx2: int|
                        0 <= idx2 < ep.len() && en_pair(#[trigger] ep[idx2]) == e by {
                        lemma_count_push(pairs.take(h as int), e, pairs[h as int]);
                        if e == pairs[h as int] {
                            assert(en_pair(ep[idx as int]) == e);
                        } else {
                            assert(count_pairs(pairs.take(h as int), e) > 0);
                            let idx2 = choose|idx2: int|
                                0 <= idx2 < el_pre.len() && en_pair(#[trigger] el_pre[idx2]) == e;
                            assert(en_pair(ep[idx2]) == en_pair(el_pre[idx2]));
                            assert(en_pair(ep[idx2]) == e);
                        }
                    }
                    assert forall|x: int| 0 <= x < nh implies {
                        let eh = #[trigger] m.he(x);
                        &&& (x >= h + 1 ==> eh.twin is None)
                        &&& (x < h + 1 ==> (eh.twin is Some <==> count_pairs(
                            pairs.take(h + 1),
                            pairs[x],
                        ) == 2))
                        &&& (eh.twin is Some ==> {
                            let t = eh.twin->0 as int;
                            &&& 0 <= t < h + 1
                            &&& t != x
                            &&& m.he(t).twin == Some(x as usize)
                            &&& pairs[t] == pairs[x]
                        })
                    } by {
                        lemma_count_push(pairs.take(h as int), pairs[x], pairs[h as int]);
                        if x == h as int {
                            assert(m.he(x).twin == Some(first));
                            assert(pairs[first as int] == pairs[h as int]);
                            assert(m.he(first as int).twin == Some(h));
                        } else if x == first as int {
                            assert(m.he(x).twin == Some(h));
                            assert(count_pairs(pairs.take(h + 1), pairs[x]) == 2);
                        } else {
                            assert(m.he(x) == m_pre.he(x));
                            if x < h && pairs[x] == pairs[h as int] {
                                // The only earlier claimant of this pair is
                                // `first`: a second would make the prefix
                                // count two already.
                                assert(x == first as int) by {
                                    if x != first as int {
                                        if x < first as int {
                                            lemma_count_two(
                                                pairs.take(h as int),
                                                pairs[h as int],
                                                x,
                                                first as int,
                                            );
                                        } else {
                                            lemma_count_two(
                                                pairs.take(h as int),
                                                pairs[h as int],
                                                first as int,
                                                x,
                                            );
                                        }
                                    }
                                }
                            }
                        }
                    }
                }
            },
        }
        h += 1;
    }
    proof {
        assert(pairs.take(nh as int) =~= pairs);
        assert(manifold_ok(polys)) by {
            assert forall|e: (int, int)| claims(polys, e) <= 2 by {
                if count_pairs(pairs, e) > 0 {
                    assert(count_pairs(pairs.take(nh as int), e) > 0);
                    let idx = choose|idx: int|
                        0 <= idx < elist@.len() && en_pair(#[trigger] elist@[idx]) == e;
                    assert(elist@[idx].3 || !elist@[idx].3);
                }
            }
        }
        assert(arena_built(m, pos0, polys)) by {
            assert(m.vertices@.len() == pos0.len());
            assert(m.positions@ == pos0);
            assert(m.faces@.len() == polys.len());
            assert forall|q: int|
                0 <= q < polys.len() implies {
                let fc = #[trigger] m.fc(q);
                fc.halfedge == base(polys, q) && fc.degree == polys[q].len() && fc.alive
            } by {
                assert(m.fc(q) == m0.fc(q));
            }
            assert(m.halfedges@.len() == total_edges(polys));
            assert forall|q: int, j: int|
                0 <= q < polys.len() && 0 <= j < polys[q].len() implies #[trigger] he_at(
                m,
                polys,
                q,
                j,
            ) by {
                assert(he_at(m0, polys, q, j));
                lemma_run_bounds(polys, q);
                let hh = base(polys, q) + j;
                assert(m.he(hh).vertex == m0.he(hh).vertex && m.he(hh).next == m0.he(hh).next
                    && m.he(hh).face == m0.he(hh).face);
            }
            assert forall|v: int|
                0 <= v < m.n_v() && #[trigger] m.vx(v).halfedge is Some implies {
                let hv = m.vx(v).halfedge->0 as int;
                &&& 0 <= hv < m.n_h()
                &&& m.he(hv).vertex == Some(v as usize)
            } by {
                assert(m0.vx(v) == m.vx(v));
                let hv = m.vx(v).halfedge->0 as int;
                assert(m0.he(hv).vertex == Some(v as usize));
                assert(m.he(hv).vertex == m0.he(hv).vertex);
            }
        }
        assert(twins_linked(m, polys)) by {
            assert forall|x: int| 0 <= x < m.n_h() implies {
                &&& ((#[trigger] m.he(x)).twin is Some <==> claims(polys, all_edges(polys)[x])
                    == 2)
                &&& (m.he(x).twin is Some ==> {
                    let t = m.he(x).twin->0 as int;
                    &&& 0 <= t < m.n_h()
                    &&& t != x
                    &&& m.he(t).twin == Some(x as usize)
                    &&& all_edges(polys)[t] == all_edges(polys)[x]
                })
            } by {
                assert(count_pairs(pairs.take(nh as int), pairs[x]) == count_pairs(
                    pairs,
                    pairs[x],
                ));
            }
        }
    }
    Ok(m)
}

/// A mesh the builder returns satisfies the full topological invariant.
pub proof fn lemma_built_wf(m: HalfEdgeMesh, pos: Seq<Vec3>, polys: Seq<Seq<usize>>)
    requires
        arena_built(m, pos, polys),
        twins_linked(m, polys),
        sizes_ok(pos.len() as int, polys),
        m.bounds_ok(),
    ensures
        m.wf(),
{
    lemma_all_edges_len(polys);
    assert(m.links_ok()) by {
        assert forall|h: int| 0 <= h < m.n_h() implies {
            let e = #[trigger] m.he(h);
            &&& (e.twin is Some ==> 0 <= e.twin->0 < m.n_h())
            &&& (e.next is Some ==> 0 <= e.next->0 < m.n_h())
            &&& (e.vertex is Some ==> 0 <= e.vertex->0 < m.n_v())
            &&& (e.face is Some ==> 0 <= e.face->0 < m.n_f() && m.fc(e.face->0 as int).alive)
        } by {
            lemma_arena_heads(m, pos, polys, h);
        }
    }
    assert(m.twins_ok()) by {
        assert forall|h: int|
            0 <= h < m.n_h() && #[trigger] m.he(h).twin is Some implies {
            let t = m.he(h).twin->0 as int;
            &&& 0 <= t < m.n_h()
            &&& t != h
            &&& m.he(t).twin == Some(h as usize)
        } by {}
    }
    assert(m.runs_ok()) by {
        assert forall|f: int| 0 <= f < m.n_f() implies #[trigger] m.run_ok(f) by {
            lemma_run_bounds(polys, f);
            let fc = m.fc(f);
            assert(!poly_small(polys[f]));
            assert forall|j: int| 0 <= j < fc.degree implies {
                let e = #[trigger] m.he(fc.halfedge + j);
                &&& e.face == Some(f as usize)
                &&& e.next == Some((fc.halfedge + ((j + 1) % (fc.degree as int))) as usize)
            } by {
                assert(he_at(m, polys, f, j));
            }
        }
    }
    assert(m.face_ptr_ok()) by {
        assert forall|h: int|
            0 <= h < m.n_h() && #[trigger] m.he(h).face is Some implies {
            let f = m.he(h).face->0 as int;
            &&& 0 <= f < m.n_f()
            &&& m.fc(f).halfedge <= h < m.fc(f).halfedge + m.fc(f).degree
            &&& m.he(h).vertex is Some
        } by {
            lemma_he_decompose(polys, h);
            let (q, j) = choose|q: int, j: int|
                0 <= q < polys.len() && 0 <= j < (#[trigger] polys[q]).len() && h == base(polys, q)
                    + #[trigger] vstd::math::clip(j);
            assert(he_at(m, polys, q, j));
            assert(m.he(h).face == Some(q as usize));
            assert(m.he(h).vertex is Some);
            lemma_run_bounds(polys, q);
        }
    }
}

/// Builds a fully linked half-edge mesh from a polygon soup: one vertex per
/// position (kept verbatim, in order), one face per polygon with its corners
/// as the face loop's origins, twins paired by undirected-edge discovery.
///
/// Returns the first shape error (undersized polygon, then out-of-range
/// index, scanning polygons in order), or the non-manifold error when some
/// undirected edge is claimed by more than two polygon traversals; exactly
/// the soups without such defects are accepted. Never mutates the polygon
/// list; the positions move into the mesh unchanged.
impl HalfEdgeMesh {
    pub fn build_from_polygons(positions: Vec<Vec3>, polygons: &Vec<Vec<usize>>) -> (r: Result<
        HalfEdgeMesh,
        ConstructionError,
    >)
        ensures
            r is Ok <==> soup_error(positions@.len() as int, polys_view(polygons)) is None,
            r matches Err(e) ==> Some(e) == soup_error(positions@.len() as int, polys_view(polygons)),
            r matches Ok(m) ==> m.wf() && mesh_matches_soup(m, positions@, polys_view(polygons)),
    {
        let npos = positions.len();
        let ghost polys = polys_view(polygons);
        let ghost pos0 = positions@;
        match check_sizes(npos, polygons) {
            Some(e) => {
                return Err(e);
            },
            None => {},
        }
        proof {
            lemma_sized_error_none(npos as int, polys);
        }
        let m = build_arena(positions, polygons);
        match link_twins(m, polygons) {
            Ok(mm) => {
                let nv = mm.vertices.len();
                let nh = mm.halfedges.len();
                let nf = mm.faces.len();
                proof {
                    assert(mm.bounds_ok());
                    lemma_built_wf(mm, pos0, polys);
                }
                Ok(mm)
            },
            Err(e) => {
                assert(!manifold_ok(polys));
                Err(e)
            },
        }
    }
}

/// The accepted soups are exactly the well-shaped manifold ones.
pub proof fn lemma_soup_error_none(npos: int, polys: Seq<Seq<usize>>)
    ensures
        soup_error(npos, polys) is None <==> soup_ok(npos, polys),
{
    lemma_sized_error_none(npos, polys);
}

/// The builder rejects every soup holding a polygon with fewer than three
/// corners or a corner indexing at or past the position count.
pub proof fn lemma_rejects_bad_shapes(npos: int, polys: Seq<Seq<usize>>)
    requires
        exists|p: int|
            0 <= p < polys.len() && (poly_small(#[trigger] polys[p]) || poly_oob(npos, polys[p])),
    ensures
        soup_error(npos, polys) is Some,
{
    lemma_sized_error_none(npos, polys);
}

/// Three occurrences witness a count of at least three.
proof fn lemma_count_three(s: Seq<(int, int)>, e: (int, int), i1: int, i2: int, i3: int)
    requires
        0 <= i1 < i2 < i3 < s.len(),
        s[i1] == e,
        s[i2] == e,
        s[i3] == e,
    ensures
        count_pairs(s, e) >= 3,
    decreases s.len(),
{
    if i3 == s.len() - 1 {
        assert(s.drop_last()[i1] == e && s.drop_last()[i2] == e);
        lemma_count_two(s.drop_last(), e, i1, i2);
    } else {
        assert(s.drop_last()[i1] == e && s.drop_last()[i2] == e && s.drop_last()[i3] == e);
        lemma_count_three(s.drop_last(), e, i1, i2, i3);
    }
}

/// The builder rejects every soup in which three distinct polygons claim one
/// undirected edge.
pub proof fn lemma_rejects_triple_edge(
    npos: int,
    polys: Seq<Seq<usize>>,
    e: (int, int),
    p1: int,
    p2: int,
    p3: int,
    i1: int,
    i2: int,
    i3: int,
)
    requires
        0 <= p1 < p2 < p3 < polys.len(),
        0 <= i1 < polys[p1].len(),
        0 <= i2 < polys[p2].len(),
        0 <= i3 < polys[p3].len(),
        poly_edge(polys[p1], i1) == e,
        poly_edge(polys[p2], i2) == e,
        poly_edge(polys[p3], i3) == e,
    ensures
        soup_error(npos, polys) is Some,
{
    if sized_error(npos, polys) is Some {
    } else {
        lemma_all_edges_len(polys);
        lemma_all_edges_index(polys, p1, i1);
        lemma_all_edges_index(polys, p2, i2);
        lemma_all_edges_index(polys, p3, i3);
        lemma_run_bounds(polys, p1);
        lemma_run_bounds(polys, p2);
        lemma_run_bounds(polys, p3);
        lemma_base_le(polys, p1 + 1, p2);
        lemma_base_le(polys, p2 + 1, p3);
        let h1 = base(polys, p1) + i1;
        let h2 = base(polys, p2) + i2;
        let h3 = base(polys, p3) + i3;
        assert(h1 < h2 < h3 < all_edges(polys).len());
        lemma_count_three(all_edges(polys), e, h1, h2, h3);
        assert(claims(polys, e) >= 3);
        assert(!manifold_ok(polys));
    }
}

} // verus!
