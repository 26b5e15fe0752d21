//! Half-edge mesh: vertex positions plus an index-based half-edge/face
//! adjacency structure built from raw geometry.
//!
//! Face `f` owns the three half-edges `3f`, `3f+1`, `3f+2`; half-edge
//! `3f+k` runs from the face's `k`-th vertex to its `(k+1) mod 3`-rd, so
//! `next` around a face is index arithmetic and needs no stored table.
//! Twins are paired by matching unordered endpoint pairs.

use vstd::prelude::*;
use crate::Point3;
use crate::UnfoldError;

verus! {

/// The `k % 3`-rd vertex index of a triangle.
pub open spec fn tri_vertex(t: (usize, usize, usize), k: int) -> usize {
    if k % 3 == 0 {
        t.0
    } else if k % 3 == 1 {
        t.1
    } else {
        t.2
    }
}

/// Origin vertex of half-edge `h` in a triangle list.
pub open spec fn he_origin(tris: Seq<(usize, usize, usize)>, h: int) -> usize {
    tri_vertex(tris[h / 3], h % 3)
}

/// Destination vertex of half-edge `h`: the origin of its `next`.
pub open spec fn he_dest(tris: Seq<(usize, usize, usize)>, h: int) -> usize {
    tri_vertex(tris[h / 3], h % 3 + 1)
}

/// Whether half-edges `h` and `t` span the same unordered vertex pair.
pub open spec fn same_pair(tris: Seq<(usize, usize, usize)>, h: int, t: int) -> bool {
    ||| (he_origin(tris, h) == he_origin(tris, t) && he_dest(tris, h) == he_dest(tris, t))
    ||| (he_origin(tris, h) == he_dest(tris, t) && he_dest(tris, h) == he_origin(tris, t))
}

/// More than two half-edges (here: `h` plus two others) share `h`'s
/// unordered vertex pair.
pub open spec fn nonmanifold_at(tris: Seq<(usize, usize, usize)>, h: int) -> bool {
    exists|t: int, u: int|
        0 <= t < 3 * tris.len() && 0 <= u < 3 * tris.len() && t != h && u != h && t != u
            && #[trigger] same_pair(tris, h, t) && #[trigger] same_pair(tris, h, u)
}

/// Some other half-edge spans the same unordered vertex pair as `h`.
pub open spec fn has_partner(tris: Seq<(usize, usize, usize)>, h: int) -> bool {
    exists|t: int|
        0 <= t < 3 * tris.len() && t != h && #[trigger] same_pair(tris, h, t)
}

/// Every unordered vertex pair is shared by at most two half-edges.
pub open spec fn manifold_ok(tris: Seq<(usize, usize, usize)>) -> bool {
    forall|h: int| 0 <= h < 3 * tris.len() ==> !#[trigger] nonmanifold_at(tris, h)
}

/// Face `f` of the raw input has exactly three vertex indices.
pub open spec fn arity_ok(faces: Seq<Seq<usize>>, f: int) -> bool {
    faces[f].len() == 3
}

/// Every vertex index of raw face `f` is within the vertex array.
pub open spec fn indices_ok(nv: int, faces: Seq<Seq<usize>>, f: int) -> bool {
    forall|k: int| 0 <= k < faces[f].len() ==> #[trigger] faces[f][k] < nv
}

/// Raw face `f` is a triangle over in-range vertex indices.
pub open spec fn face_ok(nv: int, faces: Seq<Seq<usize>>, f: int) -> bool {
    arity_ok(faces, f) && indices_ok(nv, faces, f)
}

/// All raw faces are well-formed triangles.
pub open spec fn faces_ok(nv: int, faces: Seq<Seq<usize>>) -> bool {
    forall|f: int| 0 <= f < faces.len() ==> #[trigger] face_ok(nv, faces, f)
}

/// The triangle list a well-formed raw face list denotes.
pub open spec fn tris_of(faces: Seq<Seq<usize>>) -> Seq<(usize, usize, usize)> {
    Seq::new(faces.len(), |f: int| (faces[f][0], faces[f][1], faces[f][2]))
}

/// The view of a raw face list as a sequence of index sequences.
pub open spec fn seqs_of(faces: Seq<Vec<usize>>) -> Seq<Seq<usize>> {
    faces.map_values(|f: Vec<usize>| f@)
}

/// A raw vertex/face input from which a mesh can be built.
pub open spec fn mesh_input_ok(nv: int, faces: Seq<Seq<usize>>) -> bool {
    faces_ok(nv, faces) && manifold_ok(tris_of(faces))
}

/// A triangle mesh with an index-based half-edge structure.
pub struct HalfEdgeMesh {
    /// Vertex positions, immutable after construction.
    pub vertices: Vec<Point3>,
    /// One vertex-index triple per face, in input order and winding.
    pub faces: Vec<(usize, usize, usize)>,
    /// Twin of each half-edge, `None` on a boundary edge.
    pub twin: Vec<Option<usize>>,
}

impl HalfEdgeMesh {
    /// Number of half-edges, three per face.
    pub open spec fn he_count(self) -> int {
        3 * self.faces@.len() as int
    }

    /// Structural invariant: every face index is in range, and `twin`
    /// pairs exactly the half-edges that share an unordered vertex pair.
    pub open spec fn wf(self) -> bool {
        &&& self.twin@.len() == self.he_count()
        &&& self.he_count() <= usize::MAX
        &&& forall|f: int|
            0 <= f < self.faces@.len() ==> (#[trigger] self.faces@[f]).0 < self.vertices@.len()
                && self.faces@[f].1 < self.vertices@.len() && self.faces@[f].2
                < self.vertices@.len()
        &&& forall|h: int|
            0 <= h < self.he_count() ==> ((#[trigger] self.twin@[h]) matches Some(t) ==> (h != t
                && 0 <= t < self.he_count() && same_pair(self.faces@, h, t as int)))
        &&& forall|h: int, t: int|
            0 <= h < self.he_count() && 0 <= t < self.he_count() && h != t && #[trigger] same_pair(
                self.faces@,
                h,
                t,
            ) ==> self.twin@[h] == Some(t as usize)
    }

    /// Twin-of-twin is the identity: whenever a half-edge has a twin, that
    /// twin's twin is the original half-edge.
    pub proof fn lemma_twin_involution(self, h: int)
        requires
            self.wf(),
            0 <= h < self.he_count(),
            self.twin@[h] is Some,
        ensures
            0 <= self.twin@[h]->Some_0 < self.he_count(),
            self.twin@[self.twin@[h]->Some_0 as int] == Some(h as usize),
    {
        let t = self.twin@[h]->Some_0 as int;
        assert(same_pair(self.faces@, h, t));
        assert(same_pair(self.faces@, t, h));
    }

    /// In a closed manifold every unordered pair is shared by exactly two
    /// half-edges; under that assumption every half-edge has a twin.
    pub open spec fn closed_manifold(self) -> bool {
        forall|h: int| 0 <= h < self.he_count() ==> #[trigger] has_partner(self.faces@, h)
    }

    /// On a closed manifold mesh, every half-edge has exactly one twin.
    pub proof fn lemma_closed_manifold_twins(self, h: int)
        requires
            self.wf(),
            self.closed_manifold(),
            0 <= h < self.he_count(),
        ensures
            self.twin@[h] is Some,
    {
        assert(has_partner(self.faces@, h));
        let t = choose|t: int|
            0 <= t < 3 * self.faces@.len() && t != h && #[trigger] same_pair(self.faces@, h, t);
        assert(self.twin@[h] == Some(t as usize));
    }

    /// Build the half-edge structure from raw geometry.
    ///
    /// Succeeds exactly on triangle faces over in-range vertex indices
    /// whose unordered edge pairs are shared by at most two half-edges;
    /// otherwise reports the first violation in face/half-edge order,
    /// producing no mesh.
    pub fn new(vertices: Vec<Point3>, faces_in: &Vec<Vec<usize>>) -> (r: Result<
        HalfEdgeMesh,
        UnfoldError,
    >)
        requires
            3 * faces_in@.len() <= usize::MAX,
        ensures
            match r {
                Ok(m) => {
                    &&& mesh_input_ok(vertices@.len() as int, seqs_of(faces_in@))
                    &&& m.wf()
                    &&& m.vertices@ == vertices@
                    &&& m.faces@ == tris_of(seqs_of(faces_in@))
                },
                Err(e) => {
                    &&& !mesh_input_ok(vertices@.len() as int, seqs_of(faces_in@))
                    &&& match e {
                        UnfoldError::UnsupportedFaceArity { face } => {
                            &&& 0 <= face < faces_in@.len()
                            &&& !arity_ok(seqs_of(faces_in@), face as int)
                            &&& forall|g: int|
                                0 <= g < face ==> face_ok(
                                    vertices@.len() as int,
                                    seqs_of(faces_in@),
                                    g,
                                )
                        },
                        UnfoldError::InvalidFaceIndex { face, vertex } => {
                            &&& 0 <= face < faces_in@.len()
                            &&& arity_ok(seqs_of(faces_in@), face as int)
                            &&& vertex >= vertices@.len()
                            &&& exists|k: int|
                                0 <= k < 3 && #[trigger] seqs_of(faces_in@)[face as int][k]
                                    == vertex && forall|j: int|
                                    0 <= j < k ==> #[trigger] seqs_of(faces_in@)[face as int][j]
                                        < vertices@.len()
                            &&& forall|g: int|
                                0 <= g < face ==> face_ok(
                                    vertices@.len() as int,
                                    seqs_of(faces_in@),
                                    g,
                                )
                        },
                        UnfoldError::NonManifoldGeometry { face } => {
                            &&& faces_ok(vertices@.len() as int, seqs_of(faces_in@))
                            &&& exists|h: int|
                                0 <= h < 3 * faces_in@.len() && #[trigger] nonmanifold_at(
                                    tris_of(seqs_of(faces_in@)),
                                    h,
                                ) && face == h / 3 && forall|g: int|
                                    0 <= g < h ==> !nonmanifold_at(tris_of(seqs_of(faces_in@)), g)
                        },
                        _ => false,
                    }
                },
            },
    {
        let ghost fv = seqs_of(faces_in@);
        let nv = vertices.len();
        let nf = faces_in.len();
        let mut tris: Vec<(usize, usize, usize)> = Vec::new();
        let mut f: usize = 0;
        while f < nf
            invariant
                f <= nf,
                nf == faces_in@.len(),
                nv == vertices@.len(),
                fv == seqs_of(faces_in@),
                tris@.len() == f,
                forall|g: int| 0 <= g < f ==> face_ok(nv as int, fv, g),
                forall|g: int| 0 <= g < f ==> tris@[g] == (fv[g][0], fv[g][1], fv[g][2]),
            decreases nf - f,
        {
            let face = &faces_in[f];
            assert(face@ == fv[f as int]);
            if face.len() != 3 {
                proof {
                    assert(!face_ok(nv as int, fv, f as int));
                    assert(!faces_ok(nv as int, fv));
                }
                return Err(UnfoldError::UnsupportedFaceArity { face: f });
            }
            let a = face[0];
            if a >= nv {
                proof {
                    assert(fv[f as int][0] == a);
                    assert(!indices_ok(nv as int, fv, f as int));
                    assert(!face_ok(nv as int, fv, f as int));
                    assert(!faces_ok(nv as int, fv));
                }
                return Err(UnfoldError::InvalidFaceIndex { face: f, vertex: a });
            }
            let b = face[1];
            if b >= nv {
                proof {
                    assert(fv[f as int][0] == a && fv[f as int][1] == b);
                    assert(!indices_ok(nv as int, fv, f as int));
                    assert(!face_ok(nv as int, fv, f as int));
                    assert(!faces_ok(nv as int, fv));
                }
                return Err(UnfoldError::InvalidFaceIndex { face: f, vertex: b });
            }
            let c = face[2];
            if c >= nv {
                proof {
                    assert(fv[f as int][0] == a && fv[f as int][1] == b && fv[f as int][2] == c);
                    assert(!indices_ok(nv as int, fv, f as int));
                    assert(!face_ok(nv as int, fv, f as int));
                    assert(!faces_ok(nv as int, fv));
                }
                return Err(UnfoldError::InvalidFaceIndex { face: f, vertex: c });
            }
            tris.push((a, b, c));
            f = f + 1;
        }
        proof {
            assert(tris@ =~= tris_of(fv));
        }
        let hcount = 3 * nf;
        let mut twin: Vec<Option<usize>> = Vec::new();
        let mut h: usize = 0;
        while h < hcount
            invariant
                h <= hcount,
                hcount == 3 * nf,
                nf == faces_in@.len(),
                nv == vertices@.len(),
                fv == seqs_of(faces_in@),
                tris@.len() == nf,
                tris@ == tris_of(fv),
                faces_ok(nv as int, fv),
                twin@.len() == h,
                forall|g: int| 0 <= g < h ==> !nonmanifold_at(tris@, g),
                forall|g: int|
                    0 <= g < h ==> ((#[trigger] twin@[g]) matches Some(t) ==> (g != t && 0 <= t
                        < hcount && same_pair(tris@, g, t as int))),
                forall|g: int, t: int|
                    0 <= g < h && 0 <= t < hcount && g != t && #[trigger] same_pair(tris@, g, t)
                        ==> twin@[g] == Some(t as usize),
            decreases hcount - h,
        {
            let mut found: Option<usize> = None;
            let mut t: usize = 0;
            while t < hcount
                invariant
                    t <= hcount,
                    hcount == 3 * nf,
                    h < hcount,
                    tris@.len() == nf,
                    nf == faces_in@.len(),
                    nv == vertices@.len(),
                    fv == seqs_of(faces_in@),
                    tris@ == tris_of(fv),
                    faces_ok(nv as int, fv),
                    match found {
                        Some(ft) => (ft as int) < t && ft != h && same_pair(
                            tris@,
                            h as int,
                            ft as int,
                        ) && forall|u: int|
                            0 <= u < t && u != h && u != ft ==> !same_pair(tris@, h as int, u),
                        None => forall|u: int|
                            0 <= u < t && u != h ==> !same_pair(tris@, h as int, u),
                    },
                    forall|g: int| 0 <= g < h ==> !nonmanifold_at(tris@, g),
                decreases hcount - t,
            {
                if t != h {
                    let shares = share_pair(&tris, h, t);
                    if shares {
                        match found {
                            Some(ft) => {
                                proof {
                                    assert(nonmanifold_at(tris_of(fv), h as int));
                                    assert(!manifold_ok(tris_of(fv)));
                                }
                                return Err(UnfoldError::NonManifoldGeometry { face: h / 3 });
                            },
                            None => {
                                found = Some(t);
                            },
                        }
                    }
                }
                t = t + 1;
            }
            twin.push(found);
            h = h + 1;
        }
        let m = HalfEdgeMesh { vertices, faces: tris, twin };
        proof {
            assert forall|hh: int, tt: int|
                0 <= hh < m.he_count() && 0 <= tt < m.he_count() && hh != tt && #[trigger]
                same_pair(m.faces@, hh, tt) implies m.twin@[hh] == Some(tt as usize) by {
                assert(!nonmanifold_at(m.faces@, hh));
            }
            assert forall|ff: int| 0 <= ff < m.faces@.len() implies (#[trigger] m.faces@[ff]).0
                < m.vertices@.len() && m.faces@[ff].1 < m.vertices@.len() && m.faces@[ff].2
                < m.vertices@.len() by {
                assert(face_ok(nv as int, fv, ff));
                assert(fv[ff][0] < nv && fv[ff][1] < nv && fv[ff][2] < nv);
            }
        }
        Ok(m)
    }

    /// Number of faces of the mesh.
    pub fn face_count(&self) -> (n: usize)
        ensures
            n == self.faces@.len(),
    {
        self.faces.len()
    }

    /// Number of vertices of the mesh.
    pub fn vertex_count(&self) -> (n: usize)
        ensures
            n == self.vertices@.len(),
    {
        self.vertices.len()
    }

    /// The three vertex positions of face `f`, in face vertex order.
    pub fn face_positions(&self, f: usize) -> (r: (Point3, Point3, Point3))
        requires
            self.wf(),
            f < self.faces@.len(),
        ensures
            r.0 == self.vertices@[self.faces@[f as int].0 as int],
            r.1 == self.vertices@[self.faces@[f as int].1 as int],
            r.2 == self.vertices@[self.faces@[f as int].2 as int],
    {
        let tri = self.faces[f];
        (self.vertices[tri.0], self.vertices[tri.1], self.vertices[tri.2])
    }

    /// Twin of half-edge `h`, if any.
    pub fn twin_of(&self, h: usize) -> (r: Option<usize>)
        requires
            self.wf(),
            h < self.twin@.len(),
        ensures
            r == self.twin@[h as int],
    {
        self.twin[h]
    }

    /// The face owning the twin of half-edge `h`: the face adjacent to
    /// `h`'s face across that edge, if any.
    pub fn twin_face(&self, h: usize) -> (r: Option<usize>)
        requires
            self.wf(),
            h < self.twin@.len(),
        ensures
            match self.twin@[h as int] {
                Some(t) => r == Some((t / 3) as usize),
                None => r is None,
            },
    {
        match self.twin[h] {
            Some(t) => Some(t / 3),
            None => None,
        }
    }

    /// If faces `f` and `g` share an edge, the first half-edge of `f` (in
    /// `3f`, `3f+1`, `3f+2` order) whose twin belongs to `g`.
    pub fn shared_edge(&self, f: usize, g: usize) -> (r: Option<usize>)
        requires
            self.wf(),
            f < self.faces@.len(),
            g < self.faces@.len(),
        ensures
            match r {
                Some(h) => {
                    &&& h / 3 == f
                    &&& h < self.twin@.len()
                    &&& self.twin@[h as int] matches Some(t) && t / 3 == g
                    &&& forall|k: int|
                        3 * f <= k < h ==> !((#[trigger] self.twin@[k]) matches Some(t) && t / 3
                            == g)
                },
                None => forall|k: int|
                    3 * f <= k < 3 * f + 3 ==> !((#[trigger] self.twin@[k]) matches Some(t) && t / 3
                        == g),
            },
    {
        let mut k: usize = 0;
        while k < 3
            invariant
                k <= 3,
                self.wf(),
                f < self.faces@.len(),
                g < self.faces@.len(),
                forall|j: int|
                    3 * f <= j < 3 * f + k ==> !((#[trigger] self.twin@[j]) matches Some(t) && t / 3
                        == g),
            decreases 3 - k,
        {
            let h = 3 * f + k;
            match self.twin[h] {
                Some(t) => {
                    if t / 3 == g {
                        return Some(h);
                    }
                },
                None => {},
            }
            k = k + 1;
        }
        None
    }

    /// Whether faces `f` and `g` are adjacent, i.e. share a mesh edge.
    pub fn are_adjacent(&self, f: usize, g: usize) -> (r: bool)
        requires
            self.wf(),
            f < self.faces@.len(),
            g < self.faces@.len(),
        ensures
            r == exists|k: int|
                3 * f <= k < 3 * f + 3 && ((#[trigger] self.twin@[k]) matches Some(t) && t / 3
                    == g),
    {
        let r = self.shared_edge(f, g);
        match r {
            Some(h) => {
                proof {
                    assert(3 * f <= h < 3 * f + 3 && ((self.twin@[h as int]) matches Some(t) && t
                        / 3 == g));
                }
                true
            },
            None => false,
        }
    }
}

/// Endpoints (origin, destination) of half-edge `h` of a triangle list.
pub(crate) fn he_endpoints(tris: &Vec<(usize, usize, usize)>, h: usize) -> (r: (usize, usize))
    requires
        h < 3 * tris@.len(),
    ensures
        r.0 == he_origin(tris@, h as int),
        r.1 == he_dest(tris@, h as int),
{
    let f = h / 3;
    let k = h % 3;
    let tri = tris[f];
    let o = if k == 0 {
        tri.0
    } else if k == 1 {
        tri.1
    } else {
        tri.2
    };
    let d = if k == 0 {
        tri.1
    } else if k == 1 {
        tri.2
    } else {
        tri.0
    };
    (o, d)
}

/// Whether half-edges `h` and `t` span the same unordered vertex pair.
fn share_pair(tris: &Vec<(usize, usize, usize)>, h: usize, t: usize) -> (r: bool)
    requires
        h < 3 * tris@.len(),
        t < 3 * tris@.len(),
    ensures
        r == same_pair(tris@, h as int, t as int),
{
    let (ho, hd) = he_endpoints(tris, h);
    let (to, td) = he_endpoints(tris, t);
    (ho == to && hd == td) || (ho == td && hd == to)
}

} // verus!
