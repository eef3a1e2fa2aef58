//! The Wavefront OBJ codec.
//!
//! The codec works in two layers. The entity layer translates between a mesh
//! and a list of OBJ records (`v`, `vn`, `vt`, `f`, comments): export walks
//! vertices in index order (OBJ indices are 1-based), emits one normal per
//! vertex when the smooth-normal channel is present, one texture coordinate
//! per half-edge (per corner, not per vertex), and one face record per live
//! face; import accumulates positions and face records and hands the whole
//! batch to the polygon builder once, discarding source normals and texture
//! coordinates. The text layer renders records as lines of bytes and parses
//! them back, carrying coordinate text verbatim.

use vstd::prelude::*;

use crate::builder::{
    mesh_matches_soup, polys_view, soup_error, ConstructionError,
};
use crate::mesh::{clone_bytes, HalfEdgeMesh, Vec2, Vec3};

verus! {

/// Malformed OBJ text.
#[derive(Clone, Copy, PartialEq, Eq, Structural, Debug)]
pub enum ParseError {
    /// A coordinate or index token is not numeric.
    NonNumeric,
    /// A record is truncated: too few tokens for its keyword.
    Truncated,
}

/// Why an import failed: bad text, or a soup the builder rejects. Reading
/// the file happens at the caller; its failures stay distinct from these.
#[derive(Clone, Copy, PartialEq, Eq, Structural, Debug)]
pub enum ImportError {
    Parse(ParseError),
    Construction(ConstructionError),
}

/// One corner of a face record: 1-based vertex index, optional 1-based
/// texture and normal indices.
#[derive(Clone, Copy, PartialEq, Eq, Structural, Debug)]
pub struct FaceCorner {
    pub vertex: usize,
    pub texture: Option<usize>,
    pub normal: Option<usize>,
}

/// One OBJ record.
pub enum ObjEntity {
    Comment(Vec<u8>),
    Vertex(Vec3),
    Normal(Vec3),
    TexCoord(Vec2),
    Face(Vec<FaceCorner>),
}

/// The mathematical shape of a record.
pub enum ObjEntityView {
    Comment(Seq<u8>),
    Vertex((Seq<u8>, Seq<u8>, Seq<u8>)),
    Normal((Seq<u8>, Seq<u8>, Seq<u8>)),
    TexCoord((Seq<u8>, Seq<u8>)),
    Face(Seq<FaceCorner>),
}

impl View for ObjEntity {
    type V = ObjEntityView;

    open spec fn view(&self) -> ObjEntityView {
        match self {
            ObjEntity::Comment(c) => ObjEntityView::Comment(c@),
            ObjEntity::Vertex(p) => ObjEntityView::Vertex(p@),
            ObjEntity::Normal(p) => ObjEntityView::Normal(p@),
            ObjEntity::TexCoord(p) => ObjEntityView::TexCoord(p@),
            ObjEntity::Face(cs) => ObjEntityView::Face(cs@),
        }
    }
}

pub open spec fn ents_view(v: Vec<ObjEntity>) -> Seq<ObjEntityView> {
    v@.map_values(|e: ObjEntity| e@)
}

/// The coordinate views of a position list.
pub open spec fn pos_views(s: Seq<Vec3>) -> Seq<(Seq<u8>, Seq<u8>, Seq<u8>)> {
    s.map_values(|p: Vec3| p@)
}

/// Whether export writes one normal record per vertex: the mesh asks for
/// smooth normals and the per-vertex channel is filled.
pub open spec fn has_normals(m: HalfEdgeMesh) -> bool {
    m.smooth_normals && m.normals@.len() == m.n_v() && m.normals@.len() > 0
}

/// Whether export writes one texture-coordinate record per half-edge.
pub open spec fn has_uvs(m: HalfEdgeMesh) -> bool {
    m.uvs@.len() == m.n_h() && m.uvs@.len() > 0
}

/// The comment export opens the file with.
pub open spec fn export_comment() -> Seq<u8> {
    seq![104u8, 97u8, 108u8, 102u8, 101u8, 100u8, 103u8, 101u8, 32u8, 109u8, 101u8, 115u8, 104u8]
}

/// The face record of live face `f`: per corner, the 1-based origin vertex;
/// the same index as normal index when normals are exported (normals are
/// per vertex); the corner's own half-edge, 1-based, as texture index when
/// texture coordinates are exported (they are per corner).
pub open spec fn face_record(m: HalfEdgeMesh, f: int) -> Seq<FaceCorner> {
    Seq::new(
        m.fc(f).degree as nat,
        |j: int|
            {
                let h = m.fc(f).halfedge + j;
                let v = m.he(h).vertex->0 as int;
                FaceCorner {
                    vertex: (v + 1) as usize,
                    texture: if has_uvs(m) {
                        Some((h + 1) as usize)
                    } else {
                        None
                    },
                    normal: if has_normals(m) {
                        Some((v + 1) as usize)
                    } else {
                        None
                    },
                }
            },
    )
}

/// The indices of the live faces, in order.
pub open spec fn alive_faces(m: HalfEdgeMesh) -> Seq<int> {
    Seq::new(m.n_f() as nat, |f: int| f).filter(|f: int| m.fc(f).alive)
}

/// Everything export writes, in order: the identifying comment, the
/// positions in vertex order, the normal records if present, the texture
/// records if present, one face record per live face.
pub open spec fn export_spec(m: HalfEdgeMesh) -> Seq<ObjEntityView> {
    seq![ObjEntityView::Comment(export_comment())] + Seq::new(
        m.n_v() as nat,
        |v: int| ObjEntityView::Vertex(m.positions@[v]@),
    ) + (if has_normals(m) {
        Seq::new(m.n_v() as nat, |v: int| ObjEntityView::Normal(m.normals@[v]@))
    } else {
        Seq::<ObjEntityView>::empty()
    }) + (if has_uvs(m) {
        Seq::new(m.n_h() as nat, |h: int| ObjEntityView::TexCoord(m.uvs@[h]@))
    } else {
        Seq::<ObjEntityView>::empty()
    }) + alive_faces(m).map_values(|f: int| ObjEntityView::Face(face_record(m, f)))
}

/// The positions an entity list carries, in record order.
pub open spec fn import_positions(ents: Seq<ObjEntityView>) -> Seq<(Seq<u8>, Seq<u8>, Seq<u8>)>
    decreases ents.len(),
{
    if ents.len() == 0 {
        Seq::empty()
    } else {
        import_positions(ents.drop_last()) + (match ents.last() {
            ObjEntityView::Vertex(p) => seq![p],
            _ => Seq::<(Seq<u8>, Seq<u8>, Seq<u8>)>::empty(),
        })
    }
}

/// A face corner's 0-based polygon index. OBJ indices are 1-based; the
/// out-of-band value for a corner written `0` is never a valid vertex slot,
/// so the builder rejects it as out of range.
pub open spec fn corner_index(c: FaceCorner) -> usize {
    if c.vertex == 0 {
        usize::MAX
    } else {
        (c.vertex - 1) as usize
    }
}

/// The polygons an entity list carries, in record order, 0-based.
pub open spec fn import_polys(ents: Seq<ObjEntityView>) -> Seq<Seq<usize>>
    decreases ents.len(),
{
    if ents.len() == 0 {
        Seq::empty()
    } else {
        import_polys(ents.drop_last()) + (match ents.last() {
            ObjEntityView::Face(cs) => seq![cs.map_values(|c: FaceCorner| corner_index(c))],
            _ => Seq::<Seq<usize>>::empty(),
        })
    }
}

impl HalfEdgeMesh {
    /// Translates the mesh into OBJ records.
    #[verifier::loop_isolation(false)]
    pub fn export_entities(&self) -> (r: Vec<ObjEntity>)
        requires
            self.wf(),
        ensures
            ents_view(r) == export_spec(*self),
    {
        let mut out: Vec<ObjEntity> = Vec::new();
        let mut comment: Vec<u8> = Vec::new();
        comment.push(104u8);
        comment.push(97u8);
        comment.push(108u8);
        comment.push(102u8);
        comment.push(101u8);
        comment.push(100u8);
        comment.push(103u8);
        comment.push(101u8);
        comment.push(32u8);
        comment.push(109u8);
        comment.push(101u8);
        comment.push(115u8);
        comment.push(104u8);
        proof {
            assert(comment@ =~= export_comment());
        }
        out.push(ObjEntity::Comment(comment));
        let nv = self.vertices.len();
        let nh = self.halfedges.len();
        let nf = self.faces.len();
        let ghost vseq = Seq::new(
            self.n_v() as nat,
            |v: int| ObjEntityView::Vertex(self.positions@[v]@),
        );
        let mut v: usize = 0;
        while v < nv
            invariant
                0 <= v <= nv,
                nv == self.n_v(),
                self.wf(),
                vseq == Seq::new(
                    self.n_v() as nat,
                    |v: int| ObjEntityView::Vertex(self.positions@[v]@),
                ),
                ents_view(out) == seq![ObjEntityView::Comment(export_comment())] + vseq.take(
                    v as int,
                ),
            decreases nv - v,
        {
            let ghost out0 = out@;
            out.push(ObjEntity::Vertex(self.positions[v].clone()));
            proof {
                assert(ents_view(out) =~= out0.map_values(|e: ObjEntity| e@).push(
                    ObjEntityView::Vertex(self.positions@[v as int]@),
                ));
                assert(vseq.take(v + 1) =~= vseq.take(v as int).push(vseq[v as int]));
                assert(ents_view(out) =~= seq![ObjEntityView::Comment(export_comment())]
                    + vseq.take(v + 1));
            }
            v += 1;
        }
        proof {
            assert(vseq.take(nv as int) =~= vseq);
        }
        // Normal records: one per vertex, only in smooth-normal mode with a
        // filled channel (flat per-face normal export is not offered).
        let ghost nseq = if has_normals(*self) {
            Seq::new(self.n_v() as nat, |v: int| ObjEntityView::Normal(self.normals@[v]@))
        } else {
            Seq::<ObjEntityView>::empty()
        };
        if self.smooth_normals && self.normals.len() == nv && self.normals.len() > 0 {
            let mut v: usize = 0;
            while v < nv
                invariant
                    0 <= v <= nv,
                    nv == self.n_v(),
                    self.wf(),
                    has_normals(*self),
                    nseq == Seq::new(
                        self.n_v() as nat,
                        |v: int| ObjEntityView::Normal(self.normals@[v]@),
                    ),
                    ents_view(out) == seq![ObjEntityView::Comment(export_comment())] + Seq::new(
                        self.n_v() as nat,
                        |v: int| ObjEntityView::Vertex(self.positions@[v]@),
                    ) + nseq.take(v as int),
                decreases nv - v,
            {
                let ghost out0 = out@;
                out.push(ObjEntity::Normal(self.normals[v].clone()));
                proof {
                    assert(nseq.take(v + 1) =~= nseq.take(v as int).push(nseq[v as int]));
                    assert(ents_view(out) =~= out0.map_values(|e: ObjEntity| e@).push(
                        ObjEntityView::Normal(self.normals@[v as int]@),
                    ));
                    assert(ents_view(out) =~= seq![ObjEntityView::Comment(export_comment())]
                        + Seq::new(
                        self.n_v() as nat,
                        |v: int| ObjEntityView::Vertex(self.positions@[v]@),
                    ) + nseq.take(v + 1));
                }
                v += 1;
            }
            proof {
                assert(nseq.take(nv as int) =~= nseq);
            }
        } else {
            proof {
                assert(nseq =~= Seq::<ObjEntityView>::empty());
            }
        }
        let ghost head2 = seq![ObjEntityView::Comment(export_comment())] + Seq::new(
            self.n_v() as nat,
            |v: int| ObjEntityView::Vertex(self.positions@[v]@),
        ) + nseq;
        proof {
            assert(ents_view(out) =~= head2);
        }
        // Texture coordinates: one per half-edge (per corner).
        let ghost tseq = if has_uvs(*self) {
            Seq::new(self.n_h() as nat, |h: int| ObjEntityView::TexCoord(self.uvs@[h]@))
        } else {
            Seq::<ObjEntityView>::empty()
        };
        if self.uvs.len() == nh && self.uvs.len() > 0 {
            let mut h: usize = 0;
            while h < nh
                invariant
                    0 <= h <= nh,
                    nh == self.n_h(),
                    self.wf(),
                    has_uvs(*self),
                    tseq == Seq::new(
                        self.n_h() as nat,
                        |h: int| ObjEntityView::TexCoord(self.uvs@[h]@),
                    ),
                    ents_view(out) == head2 + tseq.take(h as int),
                decreases nh - h,
            {
                let ghost out0 = out@;
                out.push(ObjEntity::TexCoord(self.uvs[h].clone()));
                proof {
                    assert(tseq.take(h + 1) =~= tseq.take(h as int).push(tseq[h as int]));
                    assert(ents_view(out) =~= out0.map_values(|e: ObjEntity| e@).push(
                        ObjEntityView::TexCoord(self.uvs@[h as int]@),
                    ));
                    assert(ents_view(out) =~= head2 + tseq.take(h + 1));
                }
                h += 1;
            }
            proof {
                assert(tseq.take(nh as int) =~= tseq);
            }
        } else {
            proof {
                assert(tseq =~= Seq::<ObjEntityView>::empty());
            }
        }
        let ghost head3 = head2 + tseq;
        proof {
            assert(ents_view(out) =~= head3);
        }
        // Face records, one per live face, in face-index order.
        let ghost fall = Seq::new(self.n_f() as nat, |f: int| f);
        let mut f: usize = 0;
        while f < nf
            invariant
                0 <= f <= nf,
                nf == self.n_f(),
                self.wf(),
                nh == self.n_h(),
                ents_view(out) == head3 + fall.take(f as int).filter(|g: int| self.fc(g).alive)
                    .map_values(|g: int| ObjEntityView::Face(face_record(*self, g))),
            decreases nf - f,
        {
            let ghost pre = fall.take(f as int).filter(|g: int| self.fc(g).alive);
            proof {
                assert(fall.take(f + 1) =~= fall.take(f as int).push(f as int));
                reveal(Seq::filter);
                assert(fall.take(f + 1).len() == f + 1);
                assert(fall.take(f + 1).drop_last() =~= fall.take(f as int));
                assert(fall.take(f + 1).last() == f as int);
                assert(fall.take(f + 1).filter(|g: int| self.fc(g).alive) == if self.fc(
                    f as int,
                ).alive {
                    pre.push(f as int)
                } else {
                    pre
                });
            }
            if self.faces[f].alive {
                let start = self.faces[f].halfedge;
                let deg = self.faces[f].degree;
                proof {
                    assert(self.run_ok(f as int));
                }
                let mut corners: Vec<FaceCorner> = Vec::new();
                let mut j: usize = 0;
                while j < deg
                    invariant
                        0 <= j <= deg,
                        self.wf(),
                        nh == self.n_h(),
                        f < self.n_f(),
                        self.fc(f as int).alive,
                        start == self.fc(f as int).halfedge,
                        deg == self.fc(f as int).degree,
                        start + deg <= self.n_h(),
                        corners@ == face_record(*self, f as int).take(j as int),
                    decreases deg - j,
                {
                    let h = start + j;
                    proof {
                        assert(self.he(self.fc(f as int).halfedge + j as int).face == Some(
                            f as usize,
                        ));
                        assert(self.he(h as int).face == Some(f));
                        assert(self.he(h as int).vertex is Some);
                    }
                    let origin = self.halfedges[h].vertex.unwrap();
                    let has_n = self.smooth_normals && self.normals.len() == nv
                        && self.normals.len() > 0;
                    let has_t = self.uvs.len() == nh && self.uvs.len() > 0;
                    let corner = FaceCorner {
                        vertex: origin + 1,
                        texture: if has_t {
                            Some(h + 1)
                        } else {
                            None
                        },
                        normal: if has_n {
                            Some(origin + 1)
                        } else {
                            None
                        },
                    };
                    corners.push(corner);
                    proof {
                        assert(face_record(*self, f as int)[j as int] == corner);
                        assert(face_record(*self, f as int).take(j + 1) =~= face_record(
                            *self,
                            f as int,
                        ).take(j as int).push(corner));
                    }
                    j += 1;
                }
                proof {
                    assert(face_record(*self, f as int).take(deg as int) =~= face_record(
                        *self,
                        f as int,
                    ));
                }
                let ghost out0 = out@;
                out.push(ObjEntity::Face(corners));
                proof {
                    assert(ents_view(out) =~= out0.map_values(|e: ObjEntity| e@).push(
                        ObjEntityView::Face(face_record(*self, f as int)),
                    ));
                    assert(pre.push(f as int).map_values(
                        |g: int| ObjEntityView::Face(face_record(*self, g)),
                    ) =~= pre.map_values(|g: int| ObjEntityView::Face(face_record(*self, g))).push(
                        ObjEntityView::Face(face_record(*self, f as int)),
                    ));
                }
            }
            f += 1;
        }
        proof {
            assert(fall.take(nf as int) =~= fall);
            assert(ents_view(out) =~= export_spec(*self));
        }
        out
    }

    /// Accumulates the positions and face records of the given OBJ records
    /// and builds the mesh from the whole batch at once. Normal and texture
    /// records in the source are read and discarded.
    #[verifier::loop_isolation(false)]
    pub fn import_entities(ents: &Vec<ObjEntity>) -> (r: Result<HalfEdgeMesh, ConstructionError>)
        ensures
            r is Ok <==> soup_error(
                import_positions(ents_view(*ents)).len() as int,
                import_polys(ents_view(*ents)),
            ) is None,
            r matches Err(e) ==> Some(e) == soup_error(
                import_positions(ents_view(*ents)).len() as int,
                import_polys(ents_view(*ents)),
            ),
            r matches Ok(m) ==> {
                &&& m.wf()
                &&& mesh_matches_soup(m, m.positions@, import_polys(ents_view(*ents)))
                &&& pos_views(m.positions@) == import_positions(ents_view(*ents))
            },
    {
        let ghost ev = ents_view(*ents);
        let n = ents.len();
        let mut positions: Vec<Vec3> = Vec::new();
        let mut polygons: Vec<Vec<usize>> = Vec::new();
        let mut i: usize = 0;
        while i < n
            invariant
                0 <= i <= n,
                n == ents@.len(),
                ev == ents_view(*ents),
                ev.len() == n,
                pos_views(positions@) == import_positions(ev.take(i as int)),
                polys_view(&polygons) == import_polys(ev.take(i as int)),
            decreases n - i,
        {
            let ghost posv0 = pos_views(positions@);
            let ghost polv0 = polys_view(&polygons);
            proof {
                assert(ev.take(i + 1) =~= ev.take(i as int).push(ev[i as int]));
                assert(ev.take(i + 1).drop_last() =~= ev.take(i as int));
                assert(ev[i as int] == ents@[i as int]@);
            }
            match &ents[i] {
                ObjEntity::Vertex(p) => {
                    positions.push(p.clone());
                    proof {
                        assert(pos_views(positions@) =~= posv0.push(p@));
                        assert(import_positions(ev.take(i + 1)) =~= posv0.push(p@));
                        assert(import_polys(ev.take(i + 1)) =~= polv0);
                    }
                },
                ObjEntity::Face(cs) => {
                    let k = cs.len();
                    let mut poly: Vec<usize> = Vec::new();
                    let mut j: usize = 0;
                    while j < k
                        invariant
                            0 <= j <= k,
                            k == cs@.len(),
                            poly@ == cs@.take(j as int).map_values(
                                |c: FaceCorner| corner_index(c),
                            ),
                        decreases k - j,
                    {
                        let c = cs[j];
                        let idx: usize = if c.vertex == 0 {
                            usize::MAX
                        } else {
                            c.vertex - 1
                        };
                        poly.push(idx);
                        proof {
                            assert(cs@.take(j + 1) =~= cs@.take(j as int).push(cs@[j as int]));
                            assert(cs@.take(j + 1).map_values(|c: FaceCorner| corner_index(c))
                                =~= cs@.take(j as int).map_values(
                                |c: FaceCorner| corner_index(c),
                            ).push(corner_index(cs@[j as int])));
                        }
                        j += 1;
                    }
                    proof {
                        assert(cs@.take(k as int) =~= cs@);
                    }
                    polygons.push(poly);
                    proof {
                        assert(polys_view(&polygons) =~= polv0.push(
                            cs@.map_values(|c: FaceCorner| corner_index(c)),
                        ));
                        assert(import_polys(ev.take(i + 1)) =~= polv0.push(
                            cs@.map_values(|c: FaceCorner| corner_index(c)),
                        ));
                        assert(import_positions(ev.take(i + 1)) =~= posv0);
                    }
                },
                _ => {
                    proof {
                        assert(import_positions(ev.take(i + 1)) =~= posv0);
                        assert(import_polys(ev.take(i + 1)) =~= polv0);
                    }
                },
            }
            i += 1;
        }
        proof {
            assert(ev.take(n as int) =~= ev);
        }
        let ghost posv = positions@;
        let r = HalfEdgeMesh::build_from_polygons(positions, &polygons);
        proof {
            if let Ok(ref m) = r {
                assert(m.positions@ == posv);
            }
        }
        r
    }
}

/// Splitting an entity list splits its accumulated positions.
proof fn lemma_import_positions_concat(a: Seq<ObjEntityView>, b: Seq<ObjEntityView>)
    ensures
        import_positions(a + b) == import_positions(a) + import_positions(b),
    decreases b.len(),
{
    if b.len() == 0 {
        assert(a + b =~= a);
        assert(import_positions(b) =~= Seq::<(Seq<u8>, Seq<u8>, Seq<u8>)>::empty());
        assert(import_positions(a) + import_positions(b) =~= import_positions(a));
    } else {
        lemma_import_positions_concat(a, b.drop_last());
        assert((a + b).drop_last() =~= a + b.drop_last());
        assert((a + b).last() == b.last());
        assert(import_positions(a) + import_positions(b.drop_last()) + (match b.last() {
            ObjEntityView::Vertex(p) => seq![p],
            _ => Seq::<(Seq<u8>, Seq<u8>, Seq<u8>)>::empty(),
        }) =~= import_positions(a) + import_positions(b));
    }
}

/// Splitting an entity list splits its accumulated polygons.
proof fn lemma_import_polys_concat(a: Seq<ObjEntityView>, b: Seq<ObjEntityView>)
    ensures
        import_polys(a + b) == import_polys(a) + import_polys(b),
    decreases b.len(),
{
    if b.len() == 0 {
        assert(a + b =~= a);
        assert(import_polys(b) =~= Seq::<Seq<usize>>::empty());
        assert(import_polys(a) + import_polys(b) =~= import_polys(a));
    } else {
        lemma_import_polys_concat(a, b.drop_last());
        assert((a + b).drop_last() =~= a + b.drop_last());
        assert((a + b).last() == b.last());
        assert(import_polys(a) + import_polys(b.drop_last()) + (match b.last() {
            ObjEntityView::Face(cs) => seq![cs.map_values(|c: FaceCorner| corner_index(c))],
            _ => Seq::<Seq<usize>>::empty(),
        }) =~= import_polys(a) + import_polys(b));
    }
}

/// A record list without vertex records accumulates no positions, and one
/// without face records no polygons.
proof fn lemma_import_skips(s: Seq<ObjEntityView>)
    ensures
        (forall|i: int| 0 <= i < s.len() ==> !((#[trigger] s[i]) is Vertex)) ==> import_positions(
            s,
        ) == Seq::<(Seq<u8>, Seq<u8>, Seq<u8>)>::empty(),
        (forall|i: int| 0 <= i < s.len() ==> !((#[trigger] s[i]) is Face)) ==> import_polys(s)
            == Seq::<Seq<usize>>::empty(),
    decreases s.len(),
{
    if s.len() > 0 {
        lemma_import_skips(s.drop_last());
        assert forall|i: int| 0 <= i < s.drop_last().len() implies s.drop_last()[i] == s[i] by {}
        assert(s[s.len() - 1] == s.last());
    }
}

/// Vertex records accumulate exactly their coordinates, in order.
proof fn lemma_import_positions_of_vertices(ps: Seq<(Seq<u8>, Seq<u8>, Seq<u8>)>)
    ensures
        import_positions(ps.map_values(|p: (Seq<u8>, Seq<u8>, Seq<u8>)| ObjEntityView::Vertex(p)))
            == ps,
    decreases ps.len(),
{
    let s = ps.map_values(|p: (Seq<u8>, Seq<u8>, Seq<u8>)| ObjEntityView::Vertex(p));
    if ps.len() == 0 {
        assert(import_positions(s) =~= ps);
    } else {
        lemma_import_positions_of_vertices(ps.drop_last());
        assert(s.drop_last() =~= ps.drop_last().map_values(
            |p: (Seq<u8>, Seq<u8>, Seq<u8>)| ObjEntityView::Vertex(p),
        ));
        assert(s.last() == ObjEntityView::Vertex(ps.last()));
        assert(ps.drop_last() + seq![ps.last()] =~= ps);
    }
}

/// Face records accumulate exactly their 0-based polygons, in order.
proof fn lemma_import_polys_of_faces(frs: Seq<Seq<FaceCorner>>)
    ensures
        import_polys(frs.map_values(|cs: Seq<FaceCorner>| ObjEntityView::Face(cs)))
            == frs.map_values(
            |cs: Seq<FaceCorner>| cs.map_values(|c: FaceCorner| corner_index(c)),
        ),
    decreases frs.len(),
{
    let s = frs.map_values(|cs: Seq<FaceCorner>| ObjEntityView::Face(cs));
    let out = frs.map_values(|cs: Seq<FaceCorner>| cs.map_values(|c: FaceCorner| corner_index(c)));
    if frs.len() == 0 {
        assert(import_polys(s) =~= out);
    } else {
        lemma_import_polys_of_faces(frs.drop_last());
        assert(s.drop_last() =~= frs.drop_last().map_values(
            |cs: Seq<FaceCorner>| ObjEntityView::Face(cs),
        ));
        assert(s.last() == ObjEntityView::Face(frs.last()));
        assert(out =~= frs.drop_last().map_values(
            |cs: Seq<FaceCorner>| cs.map_values(|c: FaceCorner| corner_index(c)),
        ) + seq![frs.last().map_values(|c: FaceCorner| corner_index(c))]);
    }
}

/// Filtering with a predicate that holds everywhere keeps the sequence.
proof fn lemma_filter_all<A>(s: Seq<A>, pred: spec_fn(A) -> bool)
    requires
        forall|i: int| 0 <= i < s.len() ==> pred(#[trigger] s[i]),
    ensures
        s.filter(pred) == s,
    decreases s.len(),
{
    reveal(Seq::filter);
    if s.len() > 0 {
        assert forall|i: int| 0 <= i < s.drop_last().len() implies pred(
            #[trigger] s.drop_last()[i],
        ) by {
            assert(s.drop_last()[i] == s[i]);
        }
        lemma_filter_all(s.drop_last(), pred);
        assert(pred(s[s.len() - 1]));
        assert(s.drop_last().push(s.last()) =~= s);
    }
}

/// Round trip: the records exported from a freshly built mesh carry exactly
/// the soup the mesh was built from. Importing them therefore succeeds and
/// rebuilds a mesh with the same vertex count, the same positions byte for
/// byte, and the same polygon (per-face corner count) list.
pub proof fn lemma_obj_round_trip(m: HalfEdgeMesh, pos: Seq<Vec3>, polys: Seq<Seq<usize>>)
    requires
        mesh_matches_soup(m, pos, polys),
        crate::builder::sizes_ok(pos.len() as int, polys),
        m.bounds_ok(),
    ensures
        import_positions(export_spec(m)) == pos_views(pos),
        import_polys(export_spec(m)) == polys,
{
    let seg0 = seq![ObjEntityView::Comment(export_comment())];
    let segv = Seq::new(m.n_v() as nat, |v: int| ObjEntityView::Vertex(m.positions@[v]@));
    let segn = if has_normals(m) {
        Seq::new(m.n_v() as nat, |v: int| ObjEntityView::Normal(m.normals@[v]@))
    } else {
        Seq::<ObjEntityView>::empty()
    };
    let segt = if has_uvs(m) {
        Seq::new(m.n_h() as nat, |h: int| ObjEntityView::TexCoord(m.uvs@[h]@))
    } else {
        Seq::<ObjEntityView>::empty()
    };
    let segf = alive_faces(m).map_values(|f: int| ObjEntityView::Face(face_record(m, f)));
    assert(export_spec(m) == seg0 + segv + segn + segt + segf);
    // Positions: only the vertex segment contributes, verbatim.
    lemma_import_positions_concat(seg0 + segv + segn + segt, segf);
    lemma_import_positions_concat(seg0 + segv + segn, segt);
    lemma_import_positions_concat(seg0 + segv, segn);
    lemma_import_positions_concat(seg0, segv);
    lemma_import_skips(seg0);
    lemma_import_skips(segn);
    lemma_import_skips(segt);
    lemma_import_skips(segf);
    assert(segv =~= pos_views(pos).map_values(
        |p: (Seq<u8>, Seq<u8>, Seq<u8>)| ObjEntityView::Vertex(p),
    ));
    lemma_import_positions_of_vertices(pos_views(pos));
    assert(import_positions(export_spec(m)) =~= pos_views(pos));
    // Polygons: only the face segment contributes; every face is live, the
    // records walk them in order, and stripping the 1-based offset gives the
    // original polygon back.
    lemma_import_polys_concat(seg0 + segv + segn + segt, segf);
    lemma_import_polys_concat(seg0 + segv + segn, segt);
    lemma_import_polys_concat(seg0 + segv, segn);
    lemma_import_polys_concat(seg0, segv);
    lemma_import_skips(segv);
    assert(import_polys(export_spec(m)) =~= import_polys(segf));
    assert(alive_faces(m) == Seq::new(m.n_f() as nat, |f: int| f)) by {
        lemma_filter_all(Seq::new(m.n_f() as nat, |f: int| f), |f: int| m.fc(f).alive);
    }
    let frs = Seq::new(m.n_f() as nat, |f: int| face_record(m, f));
    assert(segf =~= frs.map_values(|cs: Seq<FaceCorner>| ObjEntityView::Face(cs)));
    lemma_import_polys_of_faces(frs);
    assert forall|p: int| 0 <= p < polys.len() implies frs.map_values(
        |cs: Seq<FaceCorner>| cs.map_values(|c: FaceCorner| corner_index(c)),
    )[p] == polys[p] by {
        crate::builder::lemma_run_bounds(polys, p);
        assert forall|j: int| 0 <= j < polys[p].len() implies face_record(m, p).map_values(
            |c: FaceCorner| corner_index(c),
        )[j] == polys[p][j] by {
            assert(crate::builder::he_at(m, polys, p, j));
            assert(!crate::builder::poly_oob(pos.len() as int, polys[p]));
            assert(polys[p][j] < pos.len());
            assert(face_record(m, p)[j].vertex == polys[p][j] + 1);
        }
        assert(face_record(m, p).map_values(|c: FaceCorner| corner_index(c)) =~= polys[p]);
    }
    assert(frs.map_values(
        |cs: Seq<FaceCorner>| cs.map_values(|c: FaceCorner| corner_index(c)),
    ) =~= polys);
    assert(import_polys(export_spec(m)) =~= polys);
}

/// The decimal digits of `n`, most significant first.
pub open spec fn dec_of(n: nat) -> Seq<u8>
    decreases n,
{
    if n < 10 {
        seq![(48 + n) as u8]
    } else {
        dec_of(n / 10).push((48 + (n % 10)) as u8)
    }
}

/// Renders an index in decimal.
fn fmt_usize(n: usize) -> (r: Vec<u8>)
    ensures
        r@ == dec_of(n as nat),
    decreases n,
{
    if n < 10 {
        let mut r: Vec<u8> = Vec::new();
        r.push(48 + (n as u8));
        proof {
            assert(r@ =~= dec_of(n as nat));
        }
        r
    } else {
        let mut r = fmt_usize(n / 10);
        r.push(48 + ((n % 10) as u8));
        r
    }
}

/// One face-record corner as text: ` v`, ` v/t`, ` v//n` or ` v/t/n`.
pub open spec fn fmt_corner(c: FaceCorner) -> Seq<u8> {
    seq![32u8] + dec_of(c.vertex as nat) + (match (c.texture, c.normal) {
        (Option::None, Option::None) => Seq::<u8>::empty(),
        (Option::Some(t), Option::None) => seq![47u8] + dec_of(t as nat),
        (Option::None, Option::Some(nn)) => seq![47u8, 47u8] + dec_of(nn as nat),
        (Option::Some(t), Option::Some(nn)) => seq![47u8] + dec_of(t as nat) + seq![47u8] + dec_of(
            nn as nat,
        ),
    })
}

/// All corners of a face record, in order.
pub open spec fn fmt_corners(cs: Seq<FaceCorner>) -> Seq<u8>
    decreases cs.len(),
{
    if cs.len() == 0 {
        Seq::empty()
    } else {
        fmt_corners(cs.drop_last()) + fmt_corner(cs.last())
    }
}

/// One OBJ record as one line of text (without the newline).
pub open spec fn fmt_entity(e: ObjEntityView) -> Seq<u8> {
    match e {
        ObjEntityView::Comment(c) => seq![35u8, 32u8] + c,
        ObjEntityView::Vertex(p) => seq![118u8, 32u8] + p.0 + seq![32u8] + p.1 + seq![32u8] + p.2,
        ObjEntityView::Normal(p) => seq![118u8, 110u8, 32u8] + p.0 + seq![32u8] + p.1 + seq![32u8]
            + p.2,
        ObjEntityView::TexCoord(p) => seq![118u8, 116u8, 32u8] + p.0 + seq![32u8] + p.1,
        ObjEntityView::Face(cs) => seq![102u8] + fmt_corners(cs),
    }
}

/// A record list as text: one line per record, each closed by a newline.
pub open spec fn fmt_lines(ents: Seq<ObjEntityView>) -> Seq<u8>
    decreases ents.len(),
{
    if ents.len() == 0 {
        Seq::empty()
    } else {
        fmt_lines(ents.drop_last()) + fmt_entity(ents.last()) + seq![10u8]
    }
}

/// Appends `src` to `dst`.
fn append_bytes(dst: &mut Vec<u8>, src: &Vec<u8>)
    ensures
        final(dst)@ == old(dst)@ + src@,
{
    let n = src.len();
    let mut i: usize = 0;
    while i < n
        invariant
            0 <= i <= n,
            n == src@.len(),
            dst@ == old(dst)@ + src@.take(i as int),
        decreases n - i,
    {
        dst.push(src[i]);
        proof {
            assert(old(dst)@ + src@.take(i + 1) =~= (old(dst)@ + src@.take(i as int)).push(
                src@[i as int],
            ));
        }
        i += 1;
    }
    proof {
        assert(src@.take(n as int) =~= src@);
        assert(dst@ == old(dst)@ + src@);
    }
}

/// Renders one record as its text line (without the newline).
fn format_entity(e: &ObjEntity) -> (r: Vec<u8>)
    ensures
        r@ == fmt_entity(e@),
{
    let mut r: Vec<u8> = Vec::new();
    match e {
        ObjEntity::Comment(c) => {
            r.push(35);
            r.push(32);
            append_bytes(&mut r, c);
            proof {
                assert(r@ =~= fmt_entity(e@));
            }
        },
        ObjEntity::Vertex(p) => {
            r.push(118);
            r.push(32);
            append_bytes(&mut r, &p.x);
            r.push(32);
            append_bytes(&mut r, &p.y);
            r.push(32);
            append_bytes(&mut r, &p.z);
            proof {
                assert(r@ =~= fmt_entity(e@));
            }
        },
        ObjEntity::Normal(p) => {
            r.push(118);
            r.push(110);
            r.push(32);
            append_bytes(&mut r, &p.x);
            r.push(32);
            append_bytes(&mut r, &p.y);
            r.push(32);
            append_bytes(&mut r, &p.z);
            proof {
                assert(r@ =~= fmt_entity(e@));
            }
        },
        ObjEntity::TexCoord(p) => {
            r.push(118);
            r.push(116);
            r.push(32);
            append_bytes(&mut r, &p.x);
            r.push(32);
            append_bytes(&mut r, &p.y);
            proof {
                assert(r@ =~= fmt_entity(e@));
            }
        },
        ObjEntity::Face(cs) => {
            r.push(102);
            let k = cs.len();
            let mut j: usize = 0;
            while j < k
                invariant
                    0 <= j <= k,
                    k == cs@.len(),
                    r@ == seq![102u8] + fmt_corners(cs@.take(j as int)),
                decreases k - j,
            {
                let c = cs[j];
                r.push(32);
                let d = fmt_usize(c.vertex);
                append_bytes(&mut r, &d);
                match (c.texture, c.normal) {
                    (Option::None, Option::None) => {},
                    (Option::Some(t), Option::None) => {
                        r.push(47);
                        let d2 = fmt_usize(t);
                        append_bytes(&mut r, &d2);
                    },
                    (Option::None, Option::Some(nn)) => {
                        r.push(47);
                        r.push(47);
                        let d2 = fmt_usize(nn);
                        append_bytes(&mut r, &d2);
                    },
                    (Option::Some(t), Option::Some(nn)) => {
                        r.push(47);
                        let d2 = fmt_usize(t);
                        append_bytes(&mut r, &d2);
                        r.push(47);
                        let d3 = fmt_usize(nn);
                        append_bytes(&mut r, &d3);
                    },
                }
                proof {
                    assert(cs@.take(j + 1) =~= cs@.take(j as int).push(cs@[j as int]));
                    assert(cs@.take(j + 1).drop_last() =~= cs@.take(j as int));
                    assert(r@ =~= seq![102u8] + fmt_corners(cs@.take(j + 1)));
                }
                j += 1;
            }
            proof {
                assert(cs@.take(k as int) =~= cs@);
                assert(r@ =~= fmt_entity(e@));
            }
        },
    }
    r
}

impl HalfEdgeMesh {
    /// Renders the whole mesh as OBJ text, one record per line: the export
    /// records of `export_entities`, formatted.
    pub fn export_obj_text(&self) -> (r: Vec<u8>)
        requires
            self.wf(),
        ensures
            r@ == fmt_lines(export_spec(*self)),
    {
        let ents = self.export_entities();
        let ghost ev = ents_view(ents);
        let n = ents.len();
        let mut out: Vec<u8> = Vec::new();
        let mut i: usize = 0;
        while i < n
            invariant
                0 <= i <= n,
                n == ents@.len(),
                ev == ents_view(ents),
                ev.len() == n,
                out@ == fmt_lines(ev.take(i as int)),
            decreases n - i,
        {
            let line = format_entity(&ents[i]);
            append_bytes(&mut out, &line);
            out.push(10);
            proof {
                assert(ev.take(i + 1) =~= ev.take(i as int).push(ev[i as int]));
                assert(ev.take(i + 1).drop_last() =~= ev.take(i as int));
                assert(ev[i as int] == ents@[i as int]@);
                assert(out@ =~= fmt_lines(ev.take(i + 1)));
            }
            i += 1;
        }
        proof {
            assert(ev.take(n as int) =~= ev);
        }
        out
    }
}

pub open spec fn is_digit_byte(b: u8) -> bool {
    48 <= b <= 57
}

/// The byte class coordinate tokens are built from: digits, the decimal
/// point, signs, and the exponent letters. Coordinates stay opaque text;
/// this is the importer's numeric sanity check, full numeric interpretation
/// happens at the caller's boundary.
pub open spec fn numeric_byte(b: u8) -> bool {
    is_digit_byte(b) || b == 46 || b == 45 || b == 43 || b == 101 || b == 69
}

/// A token the importer accepts as a coordinate: nonempty, numeric bytes
/// only, with at least one digit.
pub open spec fn float_token(s: Seq<u8>) -> bool {
    &&& s.len() > 0
    &&& forall|i: int| 0 <= i < s.len() ==> numeric_byte(#[trigger] s[i])
    &&& exists|i: int| 0 <= i < s.len() && is_digit_byte(#[trigger] s[i])
}

/// Whether `t` is an acceptable coordinate token.
fn check_float_token(t: &Vec<u8>) -> (r: bool)
    ensures
        r <==> float_token(t@),
{
    let n = t.len();
    if n == 0 {
        return false;
    }
    let mut saw_digit = false;
    let mut i: usize = 0;
    while i < n
        invariant
            0 <= i <= n,
            n == t@.len(),
            forall|j: int| 0 <= j < i ==> numeric_byte(#[trigger] t@[j]),
            saw_digit <==> exists|j: int| 0 <= j < i && is_digit_byte(#[trigger] t@[j]),
        decreases n - i,
    {
        let b = t[i];
        let is_d = 48 <= b && b <= 57;
        if !(is_d || b == 46 || b == 45 || b == 43 || b == 101 || b == 69) {
            return false;
        }
        if is_d {
            saw_digit = true;
        }
        i += 1;
    }
    saw_digit
}

/// The value of a decimal digit string.
pub open spec fn dec_val(s: Seq<u8>) -> int
    decreases s.len(),
{
    if s.len() == 0 {
        0
    } else {
        dec_val(s.drop_last()) * 10 + (s.last() as int - 48)
    }
}

/// Digit strings have nonnegative values.
proof fn lemma_dec_val_nonneg(s: Seq<u8>)
    requires
        forall|i: int| 0 <= i < s.len() ==> is_digit_byte(#[trigger] s[i]),
    ensures
        dec_val(s) >= 0,
    decreases s.len(),
{
    if s.len() > 0 {
        assert forall|i: int| 0 <= i < s.drop_last().len() implies is_digit_byte(
            #[trigger] s.drop_last()[i],
        ) by {
            assert(s.drop_last()[i] == s[i]);
        }
        lemma_dec_val_nonneg(s.drop_last());
        assert(is_digit_byte(s[s.len() - 1]));
    }
}

/// A digit string's prefixes never exceed its value.
proof fn lemma_dec_val_prefix(s: Seq<u8>, i: int)
    requires
        forall|j: int| 0 <= j < s.len() ==> is_digit_byte(#[trigger] s[j]),
        0 <= i <= s.len(),
    ensures
        dec_val(s.take(i)) <= dec_val(s),
    decreases s.len() - i,
{
    if i == s.len() {
        assert(s.take(i) =~= s);
    } else {
        assert(s.take(i + 1).drop_last() =~= s.take(i));
        assert(s.take(i + 1).last() == s[i]);
        assert forall|j: int| 0 <= j < s.take(i).len() implies is_digit_byte(
            #[trigger] s.take(i)[j],
        ) by {
            assert(s.take(i)[j] == s[j]);
        }
        lemma_dec_val_nonneg(s.take(i));
        assert(dec_val(s.take(i + 1)) == dec_val(s.take(i)) * 10 + (s[i] as int - 48));
        lemma_dec_val_prefix(s, i + 1);
    }
}

/// The spec-level shape of a parsed decimal index: accepted exactly when
/// the token is a nonempty digit string whose value fits the machine.
pub open spec fn parse_index_spec(t: Seq<u8>) -> Option<usize> {
    if t.len() > 0 && (forall|j: int| 0 <= j < t.len() ==> is_digit_byte(#[trigger] t[j]))
        && dec_val(t) <= usize::MAX {
        Some(dec_val(t) as usize)
    } else {
        None
    }
}

/// Parses a 1-based decimal index, exactly as `parse_index_spec` says.
fn parse_index(t: &Vec<u8>) -> (r: Option<usize>)
    ensures
        r == parse_index_spec(t@),
{
    let n = t.len();
    if n == 0 {
        return None;
    }
    let mut acc: usize = 0;
    let mut i: usize = 0;
    while i < n
        invariant
            0 <= i <= n,
            n == t@.len(),
            forall|j: int| 0 <= j < i ==> is_digit_byte(#[trigger] t@[j]),
            acc as int == dec_val(t@.take(i as int)),
        decreases n - i,
    {
        let b = t[i];
        if !(48 <= b && b <= 57) {
            assert(!is_digit_byte(t@[i as int]));
            return None;
        }
        let d = (b - 48) as usize;
        proof {
            assert(t@.take(i + 1).drop_last() =~= t@.take(i as int));
            assert(t@.take(i + 1).last() == t@[i as int]);
        }
        if acc > (usize::MAX - d) / 10 {
            // The prefix already overflows, so the whole token does.
            proof {
                assert(acc as int * 10 + d as int > usize::MAX as int) by (nonlinear_arith)
                    requires
                        acc as int > ((usize::MAX - d) as int) / 10,
                        0 <= d <= 9,
                ;
                assert(dec_val(t@.take(i + 1)) > usize::MAX as int);
                if forall|j: int| 0 <= j < t@.len() ==> is_digit_byte(#[trigger] t@[j]) {
                    lemma_dec_val_prefix(t@, i + 1);
                }
            }
            return None;
        }
        proof {
            assert(acc as int * 10 + d as int <= usize::MAX as int) by (nonlinear_arith)
                requires
                    acc as int <= ((usize::MAX - d) as int) / 10,
                    0 <= d <= 9,
                    0 <= acc as int,
            ;
        }
        acc = acc * 10 + d;
        i += 1;
    }
    proof {
        assert(t@.take(n as int) =~= t@);
    }
    Some(acc)
}

/// A copy of `bytes[a..b]`.
fn subvec(bytes: &Vec<u8>, a: usize, b: usize) -> (r: Vec<u8>)
    requires
        a <= b <= bytes@.len(),
    ensures
        r@ == bytes@.subrange(a as int, b as int),
{
    let mut r: Vec<u8> = Vec::new();
    let mut i = a;
    while i < b
        invariant
            a <= i <= b <= bytes@.len(),
            r@ == bytes@.subrange(a as int, i as int),
        decreases b - i,
    {
        r.push(bytes[i]);
        proof {
            assert(bytes@.subrange(a as int, i + 1) =~= bytes@.subrange(a as int, i as int).push(
                bytes@[i as int],
            ));
        }
        i += 1;
    }
    r
}

/// Distance from `i` to the first slash of `t` at or after it (to the end
/// when there is none).
pub open spec fn slash_len(t: Seq<u8>, i: int) -> nat
    decreases t.len() - i,
{
    if i < 0 || i >= t.len() {
        0
    } else if t[i] == 47 {
        0
    } else {
        1 + slash_len(t, i + 1)
    }
}

/// A slash-free stretch ending at a slash or the end fixes `slash_len`.
proof fn lemma_slash_len_at(t: Seq<u8>, i: int, j: int)
    requires
        0 <= i <= j <= t.len(),
        forall|k: int| i <= k < j ==> t[k] != 47,
        j == t.len() || t[j] == 47,
    ensures
        i + slash_len(t, i) == j,
    decreases j - i,
{
    if i < j {
        lemma_slash_len_at(t, i + 1, j);
    }
}

/// The spec-level verdict on one face-record corner: `v`, `v/t`, `v//n` or
/// `v/t/n`, each part a decimal index; anything else is non-numeric.
pub open spec fn corner_verdict(t: Seq<u8>) -> Result<FaceCorner, ParseError> {
    let s1 = slash_len(t, 0) as int;
    if s1 == t.len() {
        match parse_index_spec(t) {
            Some(v) => Ok(FaceCorner { vertex: v, texture: None, normal: None }),
            None => Err(ParseError::NonNumeric),
        }
    } else {
        match parse_index_spec(t.subrange(0, s1)) {
            None => Err(ParseError::NonNumeric),
            Some(v) => {
                let s2 = s1 + 1 + slash_len(t, s1 + 1) as int;
                if s2 >= t.len() {
                    match parse_index_spec(t.subrange(s1 + 1, t.len() as int)) {
                        Some(tx) => Ok(FaceCorner { vertex: v, texture: Some(tx), normal: None }),
                        None => Err(ParseError::NonNumeric),
                    }
                } else {
                    let tex = if s2 == s1 + 1 {
                        Ok(None)
                    } else {
                        match parse_index_spec(t.subrange(s1 + 1, s2)) {
                            Some(tx) => Ok(Some(tx)),
                            None => Err(ParseError::NonNumeric),
                        }
                    };
                    match tex {
                        Err(e) => Err(e),
                        Ok(texture) => match parse_index_spec(t.subrange(s2 + 1, t.len() as int)) {
                            Some(nn) => Ok(
                                FaceCorner { vertex: v, texture, normal: Some(nn) },
                            ),
                            None => Err(ParseError::NonNumeric),
                        },
                    }
                }
            },
        }
    }
}

/// Parses one face-record corner, exactly as `corner_verdict` says.
fn parse_corner(t: &Vec<u8>) -> (r: Result<FaceCorner, ParseError>)
    ensures
        r == corner_verdict(t@),
{
    let n = t.len();
    let mut s1: usize = 0;
    while s1 < n && t[s1] != 47
        invariant
            0 <= s1 <= n,
            n == t@.len(),
            forall|k: int| 0 <= k < s1 ==> t@[k] != 47,
        decreases n - s1,
    {
        s1 += 1;
    }
    proof {
        lemma_slash_len_at(t@, 0, s1 as int);
    }
    if s1 == n {
        match parse_index(t) {
            Some(v) => Ok(FaceCorner { vertex: v, texture: None, normal: None }),
            None => Err(ParseError::NonNumeric),
        }
    } else {
        let p1 = subvec(t, 0, s1);
        let vertex = match parse_index(&p1) {
            Some(v) => v,
            None => {
                return Err(ParseError::NonNumeric);
            },
        };
        let mut s2: usize = s1 + 1;
        while s2 < n && t[s2] != 47
            invariant
                s1 + 1 <= s2 <= n,
                n == t@.len(),
                s1 < n,
                forall|k: int| s1 + 1 <= k < s2 ==> t@[k] != 47,
            decreases n - s2,
        {
            s2 += 1;
        }
        proof {
            lemma_slash_len_at(t@, s1 + 1, s2 as int);
        }
        if s2 == n {
            // `v/t`
            let p2 = subvec(t, s1 + 1, n);
            match parse_index(&p2) {
                Some(tx) => Ok(FaceCorner { vertex, texture: Some(tx), normal: None }),
                None => Err(ParseError::NonNumeric),
            }
        } else {
            let texture: Option<usize> = if s2 == s1 + 1 {
                None
            } else {
                let p2 = subvec(t, s1 + 1, s2);
                match parse_index(&p2) {
                    Some(tx) => Some(tx),
                    None => {
                        return Err(ParseError::NonNumeric);
                    },
                }
            };
            let p3 = subvec(t, s2 + 1, n);
            match parse_index(&p3) {
                Some(nn) => Ok(FaceCorner { vertex, texture, normal: Some(nn) }),
                None => Err(ParseError::NonNumeric),
            }
        }
    }
}

pub open spec fn is_ws_byte(b: u8) -> bool {
    b == 32 || b == 13 || b == 9
}

/// Distance from `i` to the first newline at or after it (to the end when
/// there is none).
pub open spec fn nl_len(bytes: Seq<u8>, i: int) -> nat
    decreases bytes.len() - i,
{
    if i < 0 || i >= bytes.len() {
        0
    } else if bytes[i] == 10 {
        0
    } else {
        1 + nl_len(bytes, i + 1)
    }
}

/// A newline-free stretch ending at a newline or the end fixes `nl_len`.
proof fn lemma_nl_len_at(bytes: Seq<u8>, i: int, j: int)
    requires
        0 <= i <= j <= bytes.len(),
        forall|k: int| i <= k < j ==> bytes[k] != 10,
        j == bytes.len() || bytes[j] == 10,
    ensures
        i + nl_len(bytes, i) == j,
    decreases j - i,
{
    if i < j {
        lemma_nl_len_at(bytes, i + 1, j);
    }
}

/// Length of the token starting at `i` within `[i, j)`: the stretch up to
/// the next whitespace byte.
pub open spec fn tok_len(bytes: Seq<u8>, i: int, j: int) -> nat
    decreases j - i,
{
    if i < 0 || i >= j || j > bytes.len() {
        0
    } else if is_ws_byte(bytes[i]) {
        0
    } else {
        1 + tok_len(bytes, i + 1, j)
    }
}

/// A whitespace-free stretch ending at whitespace or the bound fixes
/// `tok_len`.
proof fn lemma_tok_len_at(bytes: Seq<u8>, i: int, e: int, j: int)
    requires
        0 <= i <= e <= j <= bytes.len(),
        forall|k: int| i <= k < e ==> !is_ws_byte(#[trigger] bytes[k]),
        e == j || is_ws_byte(bytes[e]),
    ensures
        i + tok_len(bytes, i, j) == e,
    decreases e - i,
{
    if i < e {
        lemma_tok_len_at(bytes, i + 1, e, j);
    }
}

/// The whitespace-separated tokens of `bytes[a..j)`, in order.
pub open spec fn tokens_of(bytes: Seq<u8>, a: int, j: int) -> Seq<Seq<u8>>
    decreases j - a,
{
    if a < 0 || a >= j || j > bytes.len() {
        Seq::empty()
    } else if is_ws_byte(bytes[a]) {
        tokens_of(bytes, a + 1, j)
    } else {
        let e0 = a + 1 + tok_len(bytes, a + 1, j) as int;
        let e = if e0 <= j {
            e0
        } else {
            j
        };
        seq![bytes.subrange(a, e)] + tokens_of(bytes, e, j)
    }
}

/// Verdicts of the corner tokens `toks[k..]` of a face record: the corners
/// in order, or the first corner's parse error.
pub open spec fn corners_verdict(toks: Seq<Seq<u8>>, k: int) -> Result<Seq<FaceCorner>, ParseError>
    decreases toks.len() - k,
{
    if k < 1 || k >= toks.len() {
        Ok(Seq::empty())
    } else {
        match corner_verdict(toks[k]) {
            Err(e) => Err(e),
            Ok(c) => match corners_verdict(toks, k + 1) {
                Err(e) => Err(e),
                Ok(rest) => Ok(seq![c] + rest),
            },
        }
    }
}

/// The verdict on one line's tokens: the record it carries (`v` and `f`
/// lines), nothing (blank lines, comments, validated-then-discarded `vn` and
/// `vt` records, and any keyword outside the supported subset, which is
/// skipped as the fuller format's readers do), or its parse error.
pub open spec fn line_verdict(toks: Seq<Seq<u8>>) -> Result<Option<ObjEntityView>, ParseError> {
    if toks.len() == 0 {
        Ok(None)
    } else {
        let kw = toks[0];
        if kw.len() >= 1 && kw[0] == 35 {
            Ok(None)
        } else if kw == seq![118u8] {
            // `v x y z [w]`
            if toks.len() < 4 {
                Err(ParseError::Truncated)
            } else if !float_token(toks[1]) || !float_token(toks[2]) || !float_token(toks[3]) {
                Err(ParseError::NonNumeric)
            } else {
                Ok(Some(ObjEntityView::Vertex((toks[1], toks[2], toks[3]))))
            }
        } else if kw == seq![118u8, 110u8] {
            // `vn x y z`: validated, then discarded on import
            if toks.len() < 4 {
                Err(ParseError::Truncated)
            } else if !float_token(toks[1]) || !float_token(toks[2]) || !float_token(toks[3]) {
                Err(ParseError::NonNumeric)
            } else {
                Ok(None)
            }
        } else if kw == seq![118u8, 116u8] {
            // `vt u [v] [w]`: validated, then discarded on import
            if toks.len() < 2 {
                Err(ParseError::Truncated)
            } else if !float_token(toks[1]) || (toks.len() >= 3 && !float_token(toks[2])) || (
            toks.len() >= 4 && !float_token(toks[3])) {
                Err(ParseError::NonNumeric)
            } else {
                Ok(None)
            }
        } else if kw == seq![102u8] {
            // `f c c c ...`
            if toks.len() < 2 {
                Err(ParseError::Truncated)
            } else {
                match corners_verdict(toks, 1) {
                    Err(e) => Err(e),
                    Ok(cs) => Ok(Some(ObjEntityView::Face(cs))),
                }
            }
        } else {
            Ok(None)
        }
    }
}

/// The records OBJ text carries, line by line from `i` on, or its first
/// parse error.
pub open spec fn parse_from(bytes: Seq<u8>, i: int) -> Result<Seq<ObjEntityView>, ParseError>
    decreases bytes.len() - i,
{
    if i < 0 || i >= bytes.len() {
        Ok(Seq::empty())
    } else {
        let j = i + nl_len(bytes, i) as int;
        let nxt = if j + 1 <= bytes.len() {
            j + 1
        } else {
            bytes.len() as int
        };
        match line_verdict(tokens_of(bytes, i, j)) {
            Err(e) => Err(e),
            Ok(rec) => match parse_from(bytes, nxt) {
                Err(e) => Err(e),
                Ok(rest) => Ok(
                    (match rec {
                        Some(r) => seq![r],
                        None => Seq::<ObjEntityView>::empty(),
                    }) + rest,
                ),
            },
        }
    }
}

/// What the whole OBJ text parses to.
pub open spec fn parse_text(bytes: Seq<u8>) -> Result<Seq<ObjEntityView>, ParseError> {
    parse_from(bytes, 0)
}

/// Prepends already-parsed records to a parse of the remaining text.
pub open spec fn extend_parse(
    prefix: Seq<ObjEntityView>,
    rest: Result<Seq<ObjEntityView>, ParseError>,
) -> Result<Seq<ObjEntityView>, ParseError> {
    match rest {
        Ok(tail) => Ok(prefix + tail),
        Err(e) => Err(e),
    }
}

/// Splits one line's worth of bytes into tokens, exactly as `tokens_of`
/// says.
#[verifier::loop_isolation(false)]
fn tokenize(bytes: &Vec<u8>, start: usize, j: usize) -> (toks: Vec<Vec<u8>>)
    requires
        start <= j <= bytes@.len(),
    ensures
        toks@.map_values(|t: Vec<u8>| t@) == tokens_of(bytes@, start as int, j as int),
{
    let mut toks: Vec<Vec<u8>> = Vec::new();
    let mut a = start;
    while a < j
        invariant
            start <= a <= j,
            tokens_of(bytes@, start as int, j as int) == toks@.map_values(|t: Vec<u8>| t@)
                + tokens_of(bytes@, a as int, j as int),
        decreases j - a,
    {
        let b = bytes[a];
        if b == 32 || b == 13 || b == 9 {
            proof {
                assert(tokens_of(bytes@, a as int, j as int) == tokens_of(
                    bytes@,
                    a + 1,
                    j as int,
                ));
            }
            a += 1;
        } else {
            let mut e = a + 1;
            while e < j && bytes[e] != 32 && bytes[e] != 13 && bytes[e] != 9
                invariant
                    a + 1 <= e <= j,
                    forall|k: int| a + 1 <= k < e ==> !is_ws_byte(#[trigger] bytes@[k]),
                decreases j - e,
            {
                e += 1;
            }
            proof {
                lemma_tok_len_at(bytes@, a + 1, e as int, j as int);
                assert(tokens_of(bytes@, a as int, j as int) == seq![
                    bytes@.subrange(a as int, e as int),
                ] + tokens_of(bytes@, e as int, j as int));
            }
            let ghost toks0 = toks@.map_values(|t: Vec<u8>| t@);
            toks.push(subvec(bytes, a, e));
            proof {
                assert(toks@.map_values(|t: Vec<u8>| t@) =~= toks0.push(
                    bytes@.subrange(a as int, e as int),
                ));
                assert(toks0 + (seq![bytes@.subrange(a as int, e as int)] + tokens_of(
                    bytes@,
                    e as int,
                    j as int,
                )) =~= toks@.map_values(|t: Vec<u8>| t@) + tokens_of(bytes@, e as int, j as int));
            }
            a = e;
        }
    }
    proof {
        assert(tokens_of(bytes@, a as int, j as int) =~= Seq::<Seq<u8>>::empty());
        assert(toks@.map_values(|t: Vec<u8>| t@) + Seq::<Seq<u8>>::empty() =~= toks@.map_values(
            |t: Vec<u8>| t@,
        ));
    }
    toks
}

/// Parses one line's tokens into its record, exactly as `line_verdict`
/// says.
#[verifier::loop_isolation(false)]
fn parse_line(toks: &Vec<Vec<u8>>) -> (r: Result<Option<ObjEntity>, ParseError>)
    ensures
        ({
            let lv = line_verdict(toks@.map_values(|t: Vec<u8>| t@));
            match r {
                Ok(rec) => lv matches Ok(specrec) && (match (rec, specrec) {
                    (Some(e), Some(ev)) => e@ == ev,
                    (None, None) => true,
                    _ => false,
                }),
                Err(e) => lv == Err::<Option<ObjEntityView>, ParseError>(e),
            }
        }),
{
    let ghost tv = toks@.map_values(|t: Vec<u8>| t@);
    if toks.len() == 0 {
        return Ok(None);
    }
    let kw = &toks[0];
    proof {
        assert(tv[0] == toks@[0]@);
    }
    if kw.len() >= 1 && kw[0] == 35 {
        Ok(None)
    } else if kw.len() == 1 && kw[0] == 118 {
        proof {
            assert(tv[0] =~= seq![118u8]);
        }
        if toks.len() < 4 {
            return Err(ParseError::Truncated);
        }
        proof {
            assert(tv[1] == toks@[1]@ && tv[2] == toks@[2]@ && tv[3] == toks@[3]@);
        }
        if !check_float_token(&toks[1]) || !check_float_token(&toks[2]) || !check_float_token(
            &toks[3],
        ) {
            return Err(ParseError::NonNumeric);
        }
        let x = clone_bytes(&toks[1]);
        let y = clone_bytes(&toks[2]);
        let z = clone_bytes(&toks[3]);
        Ok(Some(ObjEntity::Vertex(Vec3 { x, y, z })))
    } else if kw.len() == 2 && kw[0] == 118 && kw[1] == 110 {
        proof {
            assert(tv[0] =~= seq![118u8, 110u8]);
        }
        if toks.len() < 4 {
            return Err(ParseError::Truncated);
        }
        proof {
            assert(tv[1] == toks@[1]@ && tv[2] == toks@[2]@ && tv[3] == toks@[3]@);
        }
        if !check_float_token(&toks[1]) || !check_float_token(&toks[2]) || !check_float_token(
            &toks[3],
        ) {
            return Err(ParseError::NonNumeric);
        }
        Ok(None)
    } else if kw.len() == 2 && kw[0] == 118 && kw[1] == 116 {
        proof {
            assert(tv[0] =~= seq![118u8, 116u8]);
        }
        if toks.len() < 2 {
            return Err(ParseError::Truncated);
        }
        proof {
            assert(tv[1] == toks@[1]@);
            assert(tv.len() >= 3 ==> tv[2] == toks@[2]@);
            assert(tv.len() >= 4 ==> tv[3] == toks@[3]@);
        }
        if !check_float_token(&toks[1]) {
            return Err(ParseError::NonNumeric);
        }
        if toks.len() >= 3 && !check_float_token(&toks[2]) {
            return Err(ParseError::NonNumeric);
        }
        if toks.len() >= 4 && !check_float_token(&toks[3]) {
            return Err(ParseError::NonNumeric);
        }
        Ok(None)
    } else if kw.len() == 1 && kw[0] == 102 {
        proof {
            assert(tv[0] =~= seq![102u8]);
        }
        if toks.len() < 2 {
            return Err(ParseError::Truncated);
        }
        let mut corners: Vec<FaceCorner> = Vec::new();
        let mut k: usize = 1;
        let nt = toks.len();
        while k < nt
            invariant
                1 <= k <= nt,
                nt == toks@.len(),
                tv == toks@.map_values(|t: Vec<u8>| t@),
                tv.len() == nt,
                corners_verdict(tv, 1) == (match corners_verdict(tv, k as int) {
                    Ok(rest) => Ok::<Seq<FaceCorner>, ParseError>(corners@ + rest),
                    Err(e) => Err(e),
                }),
            decreases nt - k,
        {
            proof {
                assert(tv[k as int] == toks@[k as int]@);
            }
            match parse_corner(&toks[k]) {
                Ok(c) => {
                    let ghost c0 = corners@;
                    corners.push(c);
                    proof {
                        if let Ok(rest) = corners_verdict(tv, k + 1) {
                            assert(c0 + (seq![c] + rest) =~= corners@ + rest);
                        }
                    }
                },
                Err(e) => {
                    proof {
                        assert(corners_verdict(tv, k as int) == Err::<Seq<FaceCorner>, ParseError>(
                            e,
                        ));
                        assert(corners_verdict(tv, 1) == Err::<Seq<FaceCorner>, ParseError>(e));
                    }
                    return Err(e);
                },
            }
            k += 1;
        }
        proof {
            assert(corners_verdict(tv, nt as int) == Ok::<Seq<FaceCorner>, ParseError>(
                Seq::empty(),
            ));
            assert(corners@ + Seq::<FaceCorner>::empty() =~= corners@);
        }
        Ok(Some(ObjEntity::Face(corners)))
    } else {
        // A keyword outside the supported subset: the record is skipped.
        proof {
            assert(!(tv[0].len() >= 1 && tv[0][0] == 35));
            assert(tv[0] != seq![118u8]);
            assert(tv[0] != seq![118u8, 110u8]);
            assert(tv[0] != seq![118u8, 116u8]);
            assert(tv[0] != seq![102u8]);
        }
        Ok(None)
    }
}

impl HalfEdgeMesh {
    /// Parses OBJ text and builds the mesh, exactly as `parse_text` and the
    /// builder's acceptance say: positions and face records are accumulated
    /// in file order and handed to the polygon builder once, after the whole
    /// text is read. Normal and texture records are validated and then
    /// discarded; comment lines, blank lines and records outside the
    /// supported subset are skipped; a non-numeric token or a truncated
    /// record is a parse error, distinct from the builder's construction
    /// errors.
    #[verifier::loop_isolation(false)]
    pub fn import_obj_text(bytes: &Vec<u8>) -> (r: Result<HalfEdgeMesh, ImportError>)
        ensures
            parse_text(bytes@) matches Err(pe) ==> r == Err::<HalfEdgeMesh, ImportError>(
                ImportError::Parse(pe),
            ),
            parse_text(bytes@) matches Ok(ents) ==> {
                let npos = import_positions(ents).len() as int;
                let polys = import_polys(ents);
                &&& (r is Ok <==> soup_error(npos, polys) is None)
                &&& (r matches Err(e) ==> soup_error(npos, polys) is Some && e
                    == ImportError::Construction(soup_error(npos, polys)->0))
                &&& (r matches Ok(m) ==> {
                    &&& m.wf()
                    &&& mesh_matches_soup(m, m.positions@, polys)
                    &&& pos_views(m.positions@) == import_positions(ents)
                })
            },
    {
        let mut ents: Vec<ObjEntity> = Vec::new();
        let n = bytes.len();
        let mut i: usize = 0;
        while i < n
            invariant
                0 <= i <= n,
                parse_text(bytes@) == extend_parse(ents_view(ents), parse_from(bytes@, i as int)),
            decreases n - i,
        {
            // The current line is `bytes[i..j)`.
            let mut j = i;
            while j < n && bytes[j] != 10
                invariant
                    i <= j <= n,
                    forall|k: int| i <= k < j ==> bytes@[k] != 10,
                decreases n - j,
            {
                j += 1;
            }
            proof {
                lemma_nl_len_at(bytes@, i as int, j as int);
            }
            let toks = tokenize(bytes, i, j);
            let ghost tv = toks@.map_values(|t: Vec<u8>| t@);
            let ghost pre = ents_view(ents);
            match parse_line(&toks) {
                Err(e) => {
                    proof {
                        assert(line_verdict(tokens_of(bytes@, i as int, j as int)) == Err::<
                            Option<ObjEntityView>,
                            ParseError,
                        >(e));
                        assert(parse_from(bytes@, i as int) == Err::<
                            Seq<ObjEntityView>,
                            ParseError,
                        >(e));
                    }
                    return Err(ImportError::Parse(e));
                },
                Ok(rec) => {
                    proof {
                        assert(line_verdict(tokens_of(bytes@, i as int, j as int)) matches Ok(_));
                    }
                    let ghost nxt: int = if j + 1 <= n {
                        j + 1
                    } else {
                        n as int
                    };
                    match rec {
                        Some(e) => {
                            ents.push(e);
                            proof {
                                assert(ents_view(ents) =~= pre.push(e@));
                                if let Ok(rest) = parse_from(bytes@, nxt) {
                                    assert(pre + (seq![e@] + rest) =~= ents_view(ents) + rest);
                                }
                            }
                        },
                        None => {
                            proof {
                                if let Ok(rest) = parse_from(bytes@, nxt) {
                                    assert(pre + (Seq::<ObjEntityView>::empty() + rest) =~= pre
                                        + rest);
                                }
                            }
                        },
                    }
                },
            }
            i = if j < n {
                j + 1
            } else {
                n
            };
        }
        proof {
            assert(parse_from(bytes@, i as int) == Ok::<Seq<ObjEntityView>, ParseError>(
                Seq::empty(),
            ));
            assert(ents_view(ents) + Seq::<ObjEntityView>::empty() =~= ents_view(ents));
            assert(parse_text(bytes@) == Ok::<Seq<ObjEntityView>, ParseError>(ents_view(ents)));
        }
        match HalfEdgeMesh::import_entities(&ents) {
            Ok(m) => Ok(m),
            Err(e) => Err(ImportError::Construction(e)),
        }
    }
}

} // verus!
