//! The half-edge connectivity arenas and their well-formedness invariant.
//!
//! Vertices, half-edges and faces live in arena vectors and are addressed by
//! their index. Allocation is monotone: indices are never reused. A face can
//! be retired (`remove_face`), which clears the `face` link of its boundary
//! half-edges and marks the face dead without deallocating anything.

use vstd::prelude::*;

verus! {

/// A point in space. Each coordinate is carried as opaque decimal text
/// (ASCII bytes); the topology engine never interprets it numerically.
pub struct Vec3 {
    pub x: Vec<u8>,
    pub y: Vec<u8>,
    pub z: Vec<u8>,
}

/// A texture coordinate, carried as opaque decimal text like `Vec3`.
pub struct Vec2 {
    pub x: Vec<u8>,
    pub y: Vec<u8>,
}

impl View for Vec3 {
    type V = (Seq<u8>, Seq<u8>, Seq<u8>);

    open spec fn view(&self) -> (Seq<u8>, Seq<u8>, Seq<u8>) {
        (self.x@, self.y@, self.z@)
    }
}

impl View for Vec2 {
    type V = (Seq<u8>, Seq<u8>);

    open spec fn view(&self) -> (Seq<u8>, Seq<u8>) {
        (self.x@, self.y@)
    }
}

impl Vec3 {
    pub fn new(x: Vec<u8>, y: Vec<u8>, z: Vec<u8>) -> (r: Vec3)
        ensures
            r@ == (x@, y@, z@),
    {
        Vec3 { x, y, z }
    }

    /// Byte-for-byte equality of the coordinate text.
    pub fn bytes_eq(&self, other: &Vec3) -> (r: bool)
        ensures
            r <==> self@ == other@,
    {
        let ex = eq_bytes(&self.x, &other.x);
        let ey = eq_bytes(&self.y, &other.y);
        let ez = eq_bytes(&self.z, &other.z);
        ex && ey && ez
    }
}

impl Clone for Vec3 {
    fn clone(&self) -> (r: Vec3)
        ensures
            r@ == self@,
    {
        Vec3 { x: clone_bytes(&self.x), y: clone_bytes(&self.y), z: clone_bytes(&self.z) }
    }
}

impl Clone for Vec2 {
    fn clone(&self) -> (r: Vec2)
        ensures
            r@ == self@,
    {
        Vec2 { x: clone_bytes(&self.x), y: clone_bytes(&self.y) }
    }
}

/// Byte vector equality.
pub fn eq_bytes(a: &Vec<u8>, b: &Vec<u8>) -> (r: bool)
    ensures
        r <==> a@ == b@,
{
    if a.len() != b.len() {
        assert(a@ != b@);
        return false;
    }
    let n = a.len();
    let mut i: usize = 0;
    while i < n
        invariant
            n == a@.len() == b@.len(),
            0 <= i <= n,
            forall|j: int| 0 <= j < i ==> a@[j] == b@[j],
        decreases n - i,
    {
        if a[i] != b[i] {
            return false;
        }
        i += 1;
    }
    proof {
        assert(a@ =~= b@);
    }
    true
}

/// Byte vector copy.
pub fn clone_bytes(a: &Vec<u8>) -> (r: Vec<u8>)
    ensures
        r@ == a@,
{
    let mut r: Vec<u8> = Vec::new();
    let n = a.len();
    let mut i: usize = 0;
    while i < n
        invariant
            n == a@.len(),
            0 <= i <= n,
            r@ == a@.take(i as int),
        decreases n - i,
    {
        r.push(a[i]);
        proof {
            assert(a@.take(i + 1 as int) =~= a@.take(i as int).push(a@[i as int]));
        }
        i += 1;
    }
    proof {
        assert(a@.take(n as int) =~= a@);
    }
    r
}

/// A vertex: one link to an arbitrary incident half-edge (its origin).
#[derive(Clone, Copy)]
pub struct Vertex {
    pub halfedge: Option<usize>,
}

/// One directed traversal along a polygon edge.
#[derive(Clone, Copy)]
pub struct HalfEdge {
    /// The half-edge traversing the same undirected edge the other way.
    pub twin: Option<usize>,
    /// The successor around the owning face loop or boundary loop.
    pub next: Option<usize>,
    /// The origin vertex.
    pub vertex: Option<usize>,
    /// The owning face; `None` on a boundary.
    pub face: Option<usize>,
}

/// A face: the first half-edge of its loop and the loop's length.
/// Retired faces keep their slot (`alive == false`) so indices stay stable.
#[derive(Clone, Copy)]
pub struct Face {
    pub halfedge: usize,
    pub degree: usize,
    pub alive: bool,
}

/// A polygonal surface or polyline topology, with its attribute channels.
///
/// `positions` is keyed by vertex index and always parallel to `vertices`.
/// `normals` (per vertex) and `uvs` (per half-edge) are optional channels:
/// either empty or parallel to their entity arena.
pub struct HalfEdgeMesh {
    pub vertices: Vec<Vertex>,
    pub halfedges: Vec<HalfEdge>,
    pub faces: Vec<Face>,
    pub positions: Vec<Vec3>,
    pub normals: Vec<Vec3>,
    pub uvs: Vec<Vec2>,
    pub smooth_normals: bool,
}

impl HalfEdgeMesh {
    pub open spec fn n_v(self) -> int {
        self.vertices@.len() as int
    }

    pub open spec fn n_h(self) -> int {
        self.halfedges@.len() as int
    }

    pub open spec fn n_f(self) -> int {
        self.faces@.len() as int
    }

    pub open spec fn he(self, h: int) -> HalfEdge {
        self.halfedges@[h]
    }

    pub open spec fn fc(self, f: int) -> Face {
        self.faces@[f]
    }

    pub open spec fn vx(self, v: int) -> Vertex {
        self.vertices@[v]
    }

    /// Every entity link lands inside the arenas, and every owning-face link
    /// points at a live face.
    pub open spec fn links_ok(self) -> bool {
        forall|h: int| 0 <= h < self.n_h() ==> {
            let e = #[trigger] self.he(h);
            &&& (e.twin is Some ==> 0 <= e.twin->0 < self.n_h())
            &&& (e.next is Some ==> 0 <= e.next->0 < self.n_h())
            &&& (e.vertex is Some ==> 0 <= e.vertex->0 < self.n_v())
            &&& (e.face is Some ==> 0 <= e.face->0 < self.n_f() && self.fc(e.face->0 as int).alive)
        }
    }

    /// Twin links pair distinct half-edges symmetrically.
    pub open spec fn twins_ok(self) -> bool {
        forall|h: int| 0 <= h < self.n_h() && #[trigger] self.he(h).twin is Some ==> {
            let t = self.he(h).twin->0 as int;
            &&& 0 <= t < self.n_h()
            &&& t != h
            &&& self.he(t).twin == Some(h as usize)
        }
    }

    /// A live face owns the contiguous run of half-edges
    /// `[halfedge, halfedge + degree)`, chained cyclically by `next`.
    pub open spec fn run_ok(self, f: int) -> bool {
        let fc = self.fc(f);
        fc.alive ==> {
            &&& 3 <= fc.degree
            &&& fc.halfedge + fc.degree <= self.n_h()
            &&& forall|j: int| 0 <= j < fc.degree ==> {
                let e = #[trigger] self.he(fc.halfedge + j);
                &&& e.face == Some(f as usize)
                &&& e.next == Some((fc.halfedge + ((j + 1) % (fc.degree as int))) as usize)
            }
        }
    }

    pub open spec fn runs_ok(self) -> bool {
        forall|f: int| 0 <= f < self.n_f() ==> #[trigger] self.run_ok(f)
    }

    /// A half-edge that claims a face lies inside that face's run, and has an
    /// origin vertex.
    pub open spec fn face_ptr_ok(self) -> bool {
        forall|h: int| 0 <= h < self.n_h() && #[trigger] self.he(h).face is Some ==> {
            let f = self.he(h).face->0 as int;
            &&& 0 <= f < self.n_f()
            &&& self.fc(f).halfedge <= h < self.fc(f).halfedge + self.fc(f).degree
            &&& self.he(h).vertex is Some
        }
    }

    /// A vertex's stored half-edge has that vertex as its origin.
    pub open spec fn vertex_wit_ok(self) -> bool {
        forall|v: int| 0 <= v < self.n_v() && #[trigger] self.vx(v).halfedge is Some ==> {
            let h = self.vx(v).halfedge->0 as int;
            &&& 0 <= h < self.n_h()
            &&& self.he(h).vertex == Some(v as usize)
        }
    }

    /// Attribute channels are parallel to their arenas (optional channels may
    /// instead be empty).
    pub open spec fn channels_ok(self) -> bool {
        &&& self.positions@.len() == self.n_v()
        &&& (self.normals@.len() == 0 || self.normals@.len() == self.n_v())
        &&& (self.uvs@.len() == 0 || self.uvs@.len() == self.n_h())
    }

    /// The arenas fit in memory; every index arithmetic below stays exact.
    pub open spec fn bounds_ok(self) -> bool {
        &&& self.n_v() <= usize::MAX
        &&& self.n_h() <= usize::MAX
        &&& self.n_f() <= usize::MAX
    }

    /// The topological invariant every completed construction or edit keeps.
    pub open spec fn wf(self) -> bool {
        &&& self.bounds_ok()
        &&& self.links_ok()
        &&& self.twins_ok()
        &&& self.runs_ok()
        &&& self.face_ptr_ok()
        &&& self.vertex_wit_ok()
        &&& self.channels_ok()
    }

    /// The empty mesh.
    pub fn new() -> (r: HalfEdgeMesh)
        ensures
            r.n_v() == 0 && r.n_h() == 0 && r.n_f() == 0,
            r.positions@.len() == 0 && r.normals@.len() == 0 && r.uvs@.len() == 0,
            r.smooth_normals == true,
            r.wf(),
    {
        HalfEdgeMesh {
            vertices: Vec::new(),
            halfedges: Vec::new(),
            faces: Vec::new(),
            positions: Vec::new(),
            normals: Vec::new(),
            uvs: Vec::new(),
            smooth_normals: true,
        }
    }

    pub fn num_vertices(&self) -> (r: usize)
        ensures
            r == self.n_v(),
    {
        self.vertices.len()
    }

    pub fn num_halfedges(&self) -> (r: usize)
        ensures
            r == self.n_h(),
    {
        self.halfedges.len()
    }

    /// How many face slots exist, live or retired.
    pub fn num_face_slots(&self) -> (r: usize)
        ensures
            r == self.n_f(),
    {
        self.faces.len()
    }

    /// How many faces are live (retired faces keep a slot but do not count).
    pub fn num_faces(&self) -> (r: usize)
        ensures
            r == count_alive(self.faces@, self.n_f()),
    {
        let n = self.faces.len();
        let mut count: usize = 0;
        let mut i: usize = 0;
        while i < n
            invariant
                n == self.faces@.len(),
                0 <= i <= n,
                count == count_alive(self.faces@, i as int),
                count <= i,
            decreases n - i,
        {
            if self.faces[i].alive {
                count += 1;
            }
            i += 1;
        }
        count
    }

    /// Appends a vertex with its position; returns the new vertex index.
    pub fn alloc_vertex(&mut self, position: Vec3, halfedge: Option<usize>) -> (r: usize)
        requires
            old(self).vertices@.len() < usize::MAX,
        ensures
            r == old(self).n_v(),
            final(self).vertices@ == old(self).vertices@.push(Vertex { halfedge }),
            final(self).positions@ == old(self).positions@.push(position),
            final(self).halfedges@ == old(self).halfedges@,
            final(self).faces@ == old(self).faces@,
            final(self).normals@ == old(self).normals@,
            final(self).uvs@ == old(self).uvs@,
            final(self).smooth_normals == old(self).smooth_normals,
    {
        let r = self.vertices.len();
        self.vertices.push(Vertex { halfedge });
        self.positions.push(position);
        r
    }

    /// Appends a half-edge; returns its index.
    pub fn alloc_halfedge(&mut self, he: HalfEdge) -> (r: usize)
        requires
            old(self).halfedges@.len() < usize::MAX,
        ensures
            r == old(self).n_h(),
            final(self).halfedges@ == old(self).halfedges@.push(he),
            final(self).vertices@ == old(self).vertices@,
            final(self).positions@ == old(self).positions@,
            final(self).faces@ == old(self).faces@,
            final(self).normals@ == old(self).normals@,
            final(self).uvs@ == old(self).uvs@,
            final(self).smooth_normals == old(self).smooth_normals,
    {
        let r = self.halfedges.len();
        self.halfedges.push(he);
        r
    }

    pub fn twin(&self, h: usize) -> (r: Option<usize>)
        requires
            h < self.n_h(),
        ensures
            r == self.he(h as int).twin,
    {
        self.halfedges[h].twin
    }

    pub fn next(&self, h: usize) -> (r: Option<usize>)
        requires
            h < self.n_h(),
        ensures
            r == self.he(h as int).next,
    {
        self.halfedges[h].next
    }

    pub fn vertex(&self, h: usize) -> (r: Option<usize>)
        requires
            h < self.n_h(),
        ensures
            r == self.he(h as int).vertex,
    {
        self.halfedges[h].vertex
    }

    pub fn face(&self, h: usize) -> (r: Option<usize>)
        requires
            h < self.n_h(),
        ensures
            r == self.he(h as int).face,
    {
        self.halfedges[h].face
    }

    pub fn vertex_halfedge(&self, v: usize) -> (r: Option<usize>)
        requires
            v < self.n_v(),
        ensures
            r == self.vx(v as int).halfedge,
    {
        self.vertices[v].halfedge
    }

    pub fn face_halfedge(&self, f: usize) -> (r: usize)
        requires
            f < self.n_f(),
        ensures
            r == self.fc(f as int).halfedge,
    {
        self.faces[f].halfedge
    }

    pub fn face_degree(&self, f: usize) -> (r: usize)
        requires
            f < self.n_f(),
        ensures
            r == self.fc(f as int).degree,
    {
        self.faces[f].degree
    }

    pub fn face_alive(&self, f: usize) -> (r: bool)
        requires
            f < self.n_f(),
        ensures
            r == self.fc(f as int).alive,
    {
        self.faces[f].alive
    }

    pub fn position(&self, v: usize) -> (r: &Vec3)
        requires
            v < self.positions@.len(),
        ensures
            r == self.positions@[v as int],
    {
        &self.positions[v]
    }

    /// The vertex's normal, if the per-vertex normal channel is filled.
    pub fn normal(&self, v: usize) -> (r: Option<&Vec3>)
        requires
            v < self.n_v(),
        ensures
            self.normals@.len() == self.n_v() ==> r == Some(&self.normals@[v as int]),
            self.normals@.len() != self.n_v() ==> r is None,
    {
        if self.normals.len() == self.vertices.len() {
            Some(&self.normals[v])
        } else {
            None
        }
    }

    /// The half-edge's texture coordinate, if the per-corner channel is
    /// filled.
    pub fn uv(&self, h: usize) -> (r: Option<&Vec2>)
        requires
            h < self.n_h(),
        ensures
            self.uvs@.len() == self.n_h() ==> r == Some(&self.uvs@[h as int]),
            self.uvs@.len() != self.n_h() ==> r is None,
    {
        if self.uvs.len() == self.halfedges.len() {
            Some(&self.uvs[h])
        } else {
            None
        }
    }
}

/// How many of the first `n` face slots are live.
pub open spec fn count_alive(faces: Seq<Face>, n: int) -> int
    decreases n,
{
    if n <= 0 {
        0
    } else {
        count_alive(faces, n - 1) + if faces[n - 1].alive {
            1int
        } else {
            0int
        }
    }
}

/// One step of `next` from `h`, if `h` is a valid half-edge with a successor.
pub open spec fn next_of(m: HalfEdgeMesh, h: int) -> Option<int> {
    if 0 <= h < m.n_h() && m.he(h).next is Some {
        Some(m.he(h).next->0 as int)
    } else {
        None
    }
}

/// `k` steps of `next` from `h`; `None` as soon as a step is undefined.
pub open spec fn next_n(m: HalfEdgeMesh, h: int, k: nat) -> Option<int>
    decreases k,
{
    if k == 0 {
        Some(h)
    } else {
        match next_n(m, h, (k - 1) as nat) {
            Some(j) => next_of(m, j),
            None => None,
        }
    }
}

/// `cyc` lists half-edges that `next` chains in a cycle, in order.
pub open spec fn is_cycle(m: HalfEdgeMesh, cyc: Seq<int>) -> bool {
    &&& cyc.len() >= 1
    &&& forall|i: int| 0 <= i < cyc.len() ==> #[trigger] next_of(m, cyc[i]) == Some(
        cyc[(i + 1) % (cyc.len() as int)],
    )
}

/// Walking `k` steps of `next` inside a cycle lands `k` places further along
/// the cycle; in particular the cycle closes after exactly its length.
pub proof fn lemma_cycle_iterate(m: HalfEdgeMesh, cyc: Seq<int>, i: int, k: nat)
    requires
        is_cycle(m, cyc),
        0 <= i < cyc.len(),
    ensures
        next_n(m, cyc[i], k) == Some(cyc[(i + k) % (cyc.len() as int)]),
    decreases k,
{
    let len = cyc.len() as int;
    if k == 0 {
        vstd::arithmetic::div_mod::lemma_small_mod(i as nat, cyc.len());
    } else {
        lemma_cycle_iterate(m, cyc, i, (k - 1) as nat);
        let j = (i + k - 1) % len;
        assert(0 <= j < len) by {
            vstd::arithmetic::div_mod::lemma_mod_bound(i + k - 1, len);
        }
        assert(next_of(m, cyc[j]) == Some(cyc[(j + 1) % len]));
        assert((j + 1) % len == (i + k) % len) by {
            vstd::arithmetic::div_mod::lemma_add_mod_noop(i + k - 1, 1, len);
            if len == 1 {
            } else {
                vstd::arithmetic::div_mod::lemma_small_mod(1, cyc.len());
                vstd::arithmetic::div_mod::lemma_mod_twice(i + k - 1, len);
            }
        }
    }
}

/// Twin pairing is an involution: a half-edge's twin's twin is itself.
pub proof fn lemma_twin_involution(m: HalfEdgeMesh, h: int)
    requires
        m.wf(),
        0 <= h < m.n_h(),
        m.he(h).twin is Some,
    ensures
        0 <= m.he(h).twin->0 < m.n_h(),
        m.he(h).twin->0 != h,
        m.he(m.he(h).twin->0 as int).twin == Some(h as usize),
{
}

/// The half-edges of a live face, in loop order starting at its stored one.
pub open spec fn face_cycle(m: HalfEdgeMesh, f: int) -> Seq<int> {
    Seq::new(m.fc(f).degree as nat, |j: int| m.fc(f).halfedge + j)
}

/// Every half-edge of a live face `f` closes its loop: following `next` for
/// exactly `degree(f)` steps returns to it, and every half-edge passed on the
/// way (including itself) is owned by `f`.
pub proof fn lemma_face_loop(m: HalfEdgeMesh, h: int)
    requires
        m.wf(),
        0 <= h < m.n_h(),
        m.he(h).face is Some,
    ensures
        ({
            let f = m.he(h).face->0 as int;
            let deg = m.fc(f).degree as nat;
            &&& next_n(m, h, deg) == Some(h)
            &&& forall|k: nat|
                k < deg ==> {
                    &&& #[trigger] next_n(m, h, k) is Some
                    &&& 0 <= next_n(m, h, k)->0 < m.n_h()
                    &&& m.he(next_n(m, h, k)->0).face == m.he(h).face
                }
        }),
{
    let f = m.he(h).face->0 as int;
    let fc = m.fc(f);
    let deg = fc.degree as nat;
    let start = fc.halfedge as int;
    let cyc = face_cycle(m, f);
    assert(m.run_ok(f));
    assert(fc.alive);
    assert(is_cycle(m, cyc)) by {
        assert forall|i: int| 0 <= i < cyc.len() implies #[trigger] next_of(m, cyc[i]) == Some(
            cyc[(i + 1) % (cyc.len() as int)],
        ) by {
            assert(m.he(start + i).next == Some((start + ((i + 1) % (deg as int))) as usize));
            vstd::arithmetic::div_mod::lemma_mod_bound(i + 1, deg as int);
        }
    }
    let i = h - start;
    assert(cyc[i] == h);
    lemma_cycle_iterate(m, cyc, i, deg);
    assert((i + deg) % (deg as int) == i) by {
        vstd::arithmetic::div_mod::lemma_mod_self_0(deg as int);
        vstd::arithmetic::div_mod::lemma_add_mod_noop(i, deg as int, deg as int);
        vstd::arithmetic::div_mod::lemma_small_mod(i as nat, deg);
        vstd::arithmetic::div_mod::lemma_mod_twice(i, deg as int);
    }
    assert forall|k: nat| k < deg implies {
        &&& #[trigger] next_n(m, h, k) is Some
        &&& 0 <= next_n(m, h, k)->0 < m.n_h()
        &&& m.he(next_n(m, h, k)->0).face == m.he(h).face
    } by {
        lemma_cycle_iterate(m, cyc, i, k);
        let p = (i + k) % (deg as int);
        vstd::arithmetic::div_mod::lemma_mod_bound(i + k, deg as int);
        assert(next_n(m, h, k) == Some(start + p));
        assert(m.he(start + p).face == Some(f as usize));
    }
}

impl HalfEdgeMesh {
    /// Retires face `f`: its half-edges become boundary (`face == None`) and
    /// the face slot is marked dead. Nothing else changes; the face index is
    /// never reused.
    pub fn remove_face(&mut self, f: usize)
        requires
            old(self).wf(),
            f < old(self).n_f(),
            old(self).fc(f as int).alive,
        ensures
            final(self).wf(),
            final(self).vertices@ == old(self).vertices@,
            final(self).positions@ == old(self).positions@,
            final(self).normals@ == old(self).normals@,
            final(self).uvs@ == old(self).uvs@,
            final(self).smooth_normals == old(self).smooth_normals,
            final(self).n_h() == old(self).n_h(),
            final(self).n_f() == old(self).n_f(),
            final(self).fc(f as int).alive == false,
            final(self).fc(f as int).halfedge == old(self).fc(f as int).halfedge,
            final(self).fc(f as int).degree == old(self).fc(f as int).degree,
            forall|g: int|
                0 <= g < old(self).n_f() && g != f ==> final(self).fc(g) == old(self).fc(g),
            forall|h: int|
                0 <= h < old(self).n_h() ==> {
                    let e0 = old(self).he(h);
                    let e1 = #[trigger] final(self).he(h);
                    &&& e1.twin == e0.twin
                    &&& e1.next == e0.next
                    &&& e1.vertex == e0.vertex
                    &&& e1.face == if old(self).fc(f as int).halfedge <= h < old(self).fc(
                        f as int,
                    ).halfedge + old(self).fc(f as int).degree {
                        None
                    } else {
                        e0.face
                    }
                },
    {
        let start = self.faces[f].halfedge;
        let deg = self.faces[f].degree;
        let nh = self.halfedges.len();
        proof {
            assert(self.run_ok(f as int));
            assert(start + deg <= nh);
        }
        let ghost m0 = *self;
        let mut j: usize = 0;
        while j < deg
            invariant
                *old(self) == m0,
                m0.wf(),
                f < m0.n_f(),
                m0.fc(f as int).alive,
                start == m0.fc(f as int).halfedge,
                deg == m0.fc(f as int).degree,
                start + deg <= m0.n_h(),
                0 <= j <= deg,
                self.vertices@ == m0.vertices@,
                self.positions@ == m0.positions@,
                self.normals@ == m0.normals@,
                self.uvs@ == m0.uvs@,
                self.smooth_normals == m0.smooth_normals,
                self.faces@ == m0.faces@,
                self.halfedges@.len() == m0.halfedges@.len(),
                forall|h: int|
                    0 <= h < m0.n_h() ==> {
                        let e0 = m0.he(h);
                        let e1 = #[trigger] self.he(h);
                        &&& e1.twin == e0.twin
                        &&& e1.next == e0.next
                        &&& e1.vertex == e0.vertex
                        &&& e1.face == if start <= h < start + j {
                            None
                        } else {
                            e0.face
                        }
                    },
            decreases deg - j,
        {
            let h = start + j;
            let ghost prev = *self;
            let mut e = self.halfedges[h];
            e.face = None;
            self.halfedges[h] = e;
            proof {
                assert(self.halfedges@ == prev.halfedges@.update(h as int, e));
                assert forall|hh: int| 0 <= hh < m0.n_h() implies {
                    let e0 = m0.he(hh);
                    let e1 = #[trigger] self.he(hh);
                    &&& e1.twin == e0.twin
                    &&& e1.next == e0.next
                    &&& e1.vertex == e0.vertex
                    &&& e1.face == if start <= hh < start + j + 1 {
                        None::<usize>
                    } else {
                        e0.face
                    }
                } by {
                    assert(prev.he(hh).twin == m0.he(hh).twin);
                    assert(prev.he(hh).next == m0.he(hh).next);
                    assert(prev.he(hh).vertex == m0.he(hh).vertex);
                    if hh != h {
                        assert(self.he(hh) == prev.he(hh));
                    }
                }
            }
            j += 1;
        }
        let ghost before_kill = *self;
        self.faces[f].alive = false;
        proof {
            assert(self.faces@ == before_kill.faces@.update(
                f as int,
                Face { halfedge: start, degree: deg, alive: false },
            ));
            assert forall|hh: int| 0 <= hh < m0.n_h() implies {
                let e0 = m0.he(hh);
                let e1 = #[trigger] self.he(hh);
                &&& e1.twin == e0.twin
                &&& e1.next == e0.next
                &&& e1.vertex == e0.vertex
                &&& e1.face == if start <= hh < start + deg {
                    None::<usize>
                } else {
                    e0.face
                }
            } by {
                assert(before_kill.he(hh).twin == m0.he(hh).twin);
                assert(self.he(hh) == before_kill.he(hh));
            }
            lemma_remove_face_wf(m0, *self, f as int);
        }
    }
}

/// `remove_face` keeps the mesh well-formed: `m1` is `m0` with face `f`
/// retired and its run's owning-face links cleared.
proof fn lemma_remove_face_wf(m0: HalfEdgeMesh, m1: HalfEdgeMesh, f: int)
    requires
        m0.wf(),
        0 <= f < m0.n_f(),
        m0.fc(f).alive,
        m1.vertices@ == m0.vertices@,
        m1.positions@ == m0.positions@,
        m1.normals@ == m0.normals@,
        m1.uvs@ == m0.uvs@,
        m1.n_h() == m0.n_h(),
        m1.faces@ == m0.faces@.update(
            f,
            Face { halfedge: m0.fc(f).halfedge, degree: m0.fc(f).degree, alive: false },
        ),
        forall|h: int|
            0 <= h < m0.n_h() ==> {
                let e0 = m0.he(h);
                let e1 = #[trigger] m1.he(h);
                &&& e1.twin == e0.twin
                &&& e1.next == e0.next
                &&& e1.vertex == e0.vertex
                &&& e1.face == if m0.fc(f).halfedge <= h < m0.fc(f).halfedge + m0.fc(
                    f,
                ).degree {
                    None
                } else {
                    e0.face
                }
            },
    ensures
        m1.wf(),
{
    let start = m0.fc(f).halfedge as int;
    let deg = m0.fc(f).degree as int;
    // A half-edge outside f's run never owned f.
    assert forall|h: int|
        0 <= h < m0.n_h() && !(start <= h < start + deg) && m0.he(h).face is Some implies m0.he(
        h,
    ).face->0 != f by {
        assert(m0.face_ptr_ok());
    }
    assert(m1.links_ok()) by {
        assert forall|h: int| 0 <= h < m1.n_h() implies {
            let e = #[trigger] m1.he(h);
            &&& (e.twin is Some ==> 0 <= e.twin->0 < m1.n_h())
            &&& (e.next is Some ==> 0 <= e.next->0 < m1.n_h())
            &&& (e.vertex is Some ==> 0 <= e.vertex->0 < m1.n_v())
            &&& (e.face is Some ==> 0 <= e.face->0 < m1.n_f() && m1.fc(e.face->0 as int).alive)
        } by {
            assert(m0.links_ok());
            let e0 = m0.he(h);
            if m1.he(h).face is Some {
                assert(!(start <= h < start + deg));
                assert(e0.face->0 != f);
            }
        }
    }
    assert(m1.twins_ok()) by {
        assert forall|h: int|
            0 <= h < m1.n_h() && #[trigger] m1.he(h).twin is Some implies {
            let t = m1.he(h).twin->0 as int;
            &&& 0 <= t < m1.n_h()
            &&& t != h
            &&& m1.he(t).twin == Some(h as usize)
        } by {
            assert(m0.twins_ok());
            assert(m0.he(h).twin is Some);
        }
    }
    assert(m1.runs_ok()) by {
        assert forall|g: int| 0 <= g < m1.n_f() implies #[trigger] m1.run_ok(g) by {
            if g != f && m1.fc(g).alive {
                assert(m0.run_ok(g));
                let gs = m0.fc(g).halfedge as int;
                let gd = m0.fc(g).degree as int;
                assert forall|j: int| 0 <= j < gd implies {
                    let e = #[trigger] m1.he(gs + j);
                    &&& e.face == Some(g as usize)
                    &&& e.next == Some((gs + ((j + 1) % gd)) as usize)
                } by {
                    assert(m0.he(gs + j).face == Some(g as usize));
                    // gs + j lies outside f's run, else it would own f.
                    if start <= gs + j < start + deg {
                        assert(m0.run_ok(f));
                        let jj = gs + j - start;
                        assert(m0.he(start + jj).face == Some(f as usize));
                    }
                }
            }
        }
    }
    assert(m1.face_ptr_ok()) by {
        assert forall|h: int|
            0 <= h < m1.n_h() && #[trigger] m1.he(h).face is Some implies {
            let g = m1.he(h).face->0 as int;
            &&& 0 <= g < m1.n_f()
            &&& m1.fc(g).halfedge <= h < m1.fc(g).halfedge + m1.fc(g).degree
        } by {
            assert(m0.face_ptr_ok());
            assert(m0.he(h).face is Some && m0.he(h).face == m1.he(h).face);
            let g = m1.he(h).face->0 as int;
            assert(g != f);
        }
    }
    assert(m1.vertex_wit_ok()) by {
        assert forall|v: int|
            0 <= v < m1.n_v() && #[trigger] m1.vx(v).halfedge is Some implies {
            let h = m1.vx(v).halfedge->0 as int;
            &&& 0 <= h < m1.n_h()
            &&& m1.he(h).vertex == Some(v as usize)
        } by {
            assert(m0.vertex_wit_ok());
            assert(m0.vx(v) == m1.vx(v));
        }
    }
    assert(m1.channels_ok());
}

} // verus!
