//! Taking a mesh in: from indexed faces to the polygons and the arena of a build.
use vstd::prelude::*;
use crate::builder::{start, Builder};
use crate::mesh::{arena_wf, ngon_wf, ngons_wf, views, Ngon, NgonView, Vertex, VertexId};
use crate::tree::Node;

verus! {

/// A face as a mesh file gives it: for each corner the index of its position, or of
/// position and texture coordinate, or of position and normal, or of all three.
#[derive(Debug, PartialEq, Eq)]
pub enum Face {
    P(Vec<usize>),
    PT(Vec<(usize, usize)>),
    PN(Vec<(usize, usize)>),
    PTN(Vec<(usize, usize, usize)>),
}

/// The mathematical value of a [`Face`].
pub enum FaceView {
    P(Seq<usize>),
    PT(Seq<(usize, usize)>),
    PN(Seq<(usize, usize)>),
    PTN(Seq<(usize, usize, usize)>),
}

impl View for Face {
    type V = FaceView;

    open spec fn view(&self) -> FaceView {
        match self {
            Face::P(c) => FaceView::P(c@),
            Face::PT(c) => FaceView::PT(c@),
            Face::PN(c) => FaceView::PN(c@),
            Face::PTN(c) => FaceView::PTN(c@),
        }
    }
}

/// The index part of a mesh: how many positions, texture coordinates and normals it
/// has, and its faces.
#[derive(Debug, PartialEq, Eq)]
pub struct Mesh {
    pub positions: usize,
    pub tex_coords: usize,
    pub normals: usize,
    pub faces: Vec<Face>,
}

/// The values of a list of faces.
pub open spec fn face_views(faces: Seq<Face>) -> Seq<FaceView> {
    faces.map_values(|f: Face| f@)
}

/// What can be wrong with a face.
#[derive(Clone, Copy, Debug, PartialEq, Eq, Structural)]
pub enum Fault {
    /// The face gives no normal.
    Unsupported,
    /// The face has fewer than three corners.
    TooFewVertices,
    /// The normal of the first corner is not one of the mesh.
    NormalOutOfRange,
    /// The position of a corner is not one of the mesh.
    PositionOutOfRange,
    /// The texture coordinate of a corner is not one of the mesh.
    TextureOutOfRange,
}

/// Why a mesh was not taken in: the first face with a fault, and its fault.
#[derive(Clone, Copy, Debug, PartialEq, Eq, Structural)]
pub struct IngestError {
    pub face: usize,
    pub fault: Fault,
}

/// The number of corners of a face.
pub open spec fn corner_count(face: FaceView) -> nat {
    match face {
        FaceView::P(c) => c.len(),
        FaceView::PT(c) => c.len(),
        FaceView::PN(c) => c.len(),
        FaceView::PTN(c) => c.len(),
    }
}

/// The vertex that corner `i` of a face makes: its position, and its texture
/// coordinate where the face gives one.
pub open spec fn corner(face: FaceView, i: int) -> Vertex {
    match face {
        FaceView::PTN(c) => Vertex::Corner { position: c[i].0, texture: Some(c[i].1) },
        FaceView::PN(c) => Vertex::Corner { position: c[i].0, texture: None },
        FaceView::PT(c) => Vertex::Corner { position: c[i].0, texture: Some(c[i].1) },
        FaceView::P(c) => Vertex::Corner { position: c[i], texture: None },
    }
}

/// The normal of a face: that of its first corner.
pub open spec fn face_normal(face: FaceView) -> usize {
    match face {
        FaceView::PTN(c) => c[0].2,
        FaceView::PN(c) => c[0].1,
        _ => 0,
    }
}

/// Corner `i` of the face names a position and, where it gives one, a texture
/// coordinate of the mesh.
pub open spec fn corner_fault(face: FaceView, i: int, positions: usize, tex_coords: usize) -> Option<
    Fault,
> {
    match corner(face, i) {
        Vertex::Corner { position, texture } => if position >= positions {
            Some(Fault::PositionOutOfRange)
        } else if texture matches Some(t) && t >= tex_coords {
            Some(Fault::TextureOutOfRange)
        } else {
            None
        },
        _ => None,
    }
}

/// The fault of the first faulty corner among the first `k` of a face, if any.
pub open spec fn corners_fault(
    face: FaceView,
    k: nat,
    positions: usize,
    tex_coords: usize,
) -> Option<Fault>
    decreases k,
{
    if k == 0 {
        None
    } else {
        match corners_fault(face, (k - 1) as nat, positions, tex_coords) {
            Some(fault) => Some(fault),
            None => corner_fault(face, k - 1, positions, tex_coords),
        }
    }
}

/// The fault of a face, if it has one. A face must give a normal, have three corners
/// or more, and name a normal of the mesh at its first corner; then each corner in
/// turn must name a position and a texture coordinate of the mesh.
pub open spec fn face_fault(
    face: FaceView,
    positions: usize,
    tex_coords: usize,
    normals: usize,
) -> Option<Fault> {
    if face is P || face is PT {
        Some(Fault::Unsupported)
    } else if corner_count(face) < 3 {
        Some(Fault::TooFewVertices)
    } else if face_normal(face) >= normals {
        Some(Fault::NormalOutOfRange)
    } else {
        corners_fault(face, corner_count(face), positions, tex_coords)
    }
}

/// The polygons and the arena that faces come to.
pub struct Soup {
    pub vertices: Seq<Vertex>,
    pub polygons: Seq<NgonView>,
}

/// The polygon of a face whose corners enter an arena that holds `first` vertices:
/// it names them in their order, and has the face's normal.
pub open spec fn face_polygon(face: FaceView, first: nat) -> NgonView {
    NgonView {
        v: Seq::new(corner_count(face), |i: int| (first + i) as VertexId),
        norm: face_normal(face),
    }
}

/// The soup of the first `k` faces: each corner of each face is a vertex of its own,
/// and each face is a polygon of its corners.
pub open spec fn soup_upto(faces: Seq<FaceView>, k: nat) -> Soup
    decreases k,
{
    if k == 0 {
        Soup { vertices: seq![], polygons: seq![] }
    } else {
        let s = soup_upto(faces, (k - 1) as nat);
        let face = faces[k - 1];
        Soup {
            vertices: s.vertices + Seq::new(corner_count(face), |i: int| corner(face, i)),
            polygons: s.polygons.push(face_polygon(face, s.vertices.len())),
        }
    }
}

/// The soup of a mesh's faces.
pub open spec fn soup(faces: Seq<FaceView>) -> Soup {
    soup_upto(faces, faces.len())
}

/// Face `k` is the first with a fault.
pub open spec fn first_fault(
    faces: Seq<FaceView>,
    k: int,
    positions: usize,
    tex_coords: usize,
    normals: usize,
) -> bool {
    &&& 0 <= k < faces.len()
    &&& face_fault(faces[k], positions, tex_coords, normals) is Some
    &&& forall|j: int| 0 <= j < k ==> face_fault(faces[j], positions, tex_coords, normals) is None
}

/// No face has a fault.
pub open spec fn faultless(
    faces: Seq<FaceView>,
    positions: usize,
    tex_coords: usize,
    normals: usize,
) -> bool {
    forall|j: int| 0 <= j < faces.len() ==> face_fault(faces[j], positions, tex_coords, normals) is None
}

/// The soup of faces without fault is well formed, as long as its handles fit the
/// machine's word.
pub proof fn lemma_soup_wf(faces: Seq<FaceView>, k: nat, positions: usize, tex_coords: usize, normals: usize)
    requires
        k <= faces.len(),
        forall|j: int| 0 <= j < k ==> face_fault(faces[j], positions, tex_coords, normals) is None,
        soup_upto(faces, k).vertices.len() <= usize::MAX,
    ensures
        arena_wf(soup_upto(faces, k).vertices),
        ngons_wf(soup_upto(faces, k).polygons, soup_upto(faces, k).vertices.len()),
        soup_upto(faces, k).polygons.len() == k,
    decreases k,
{
    if k > 0 {
        let s = soup_upto(faces, (k - 1) as nat);
        let t = soup_upto(faces, k);
        let face = faces[k - 1];
        lemma_soup_wf(faces, (k - 1) as nat, positions, tex_coords, normals);
        assert(face_fault(face, positions, tex_coords, normals) is None);
        assert forall|j: int| 0 <= j < t.polygons.len() implies ngon_wf(
            #[trigger] t.polygons[j],
            t.vertices.len(),
        ) by {
            if j < k - 1 {
                assert(t.polygons[j] == s.polygons[j]);
                assert(ngon_wf(s.polygons[j], s.vertices.len()));
            }
        }
    }
}

/// Checks the corners of a face and appends the vertices they make.
fn take_corners(
    face: &Face,
    positions: usize,
    tex_coords: usize,
    vertices: &mut Vec<Vertex>,
) -> (r: Result<Vec<VertexId>, Fault>)
    requires
        face is PN || face is PTN,
    ensures
        r is Ok <==> corners_fault(face@, corner_count(face@), positions, tex_coords) is None,
        r matches Err(fault) ==> Some(fault) == corners_fault(
            face@,
            corner_count(face@),
            positions,
            tex_coords,
        ),
        r matches Ok(ids) ==> {
            &&& ids@ == face_polygon(face@, old(vertices)@.len()).v
            &&& final(vertices)@ == old(vertices)@ + Seq::new(
                corner_count(face@),
                |i: int| corner(face@, i),
            )
        },
{
    let ghost start = vertices@;
    let n = match face {
        Face::PN(c) => c.len(),
        Face::PTN(c) => c.len(),
        _ => 0,
    };
    let mut ids: Vec<VertexId> = Vec::new();
    let mut i: usize = 0;
    while i < n
        invariant
            i <= n == corner_count(face@),
            face is PN || face is PTN,
            corners_fault(face@, i as nat, positions, tex_coords) is None,
            vertices@ == start + Seq::new(i as nat, |j: int| corner(face@, j)),
            ids@ == Seq::new(i as nat, |j: int| (start.len() + j) as VertexId),
        decreases n - i,
    {
        let made = match face {
            Face::PN(c) => Vertex::Corner { position: c[i].0, texture: None },
            Face::PTN(c) => Vertex::Corner { position: c[i].0, texture: Some(c[i].1) },
            _ => Vertex::Corner { position: 0, texture: None },
        };
        assert(made == corner(face@, i as int));
        let fault = match made {
            Vertex::Corner { position, texture } => {
                if position >= positions {
                    Some(Fault::PositionOutOfRange)
                } else {
                    match texture {
                        Some(t) => if t >= tex_coords {
                            Some(Fault::TextureOutOfRange)
                        } else {
                            None
                        },
                        None => None,
                    }
                }
            },
            _ => None,
        };
        assert(fault == corner_fault(face@, i as int, positions, tex_coords));
        match fault {
            Some(f) => {
                proof {
                    lemma_corners_fault_stays(face@, (i + 1) as nat, n as nat, positions, tex_coords);
                }
                return Err(f);
            },
            None => {},
        }
        let id = vertices.len();
        vertices.push(made);
        ids.push(id);
        i += 1;
        assert(vertices@ =~= start + Seq::new(i as nat, |j: int| corner(face@, j)));
        assert(ids@ =~= Seq::new(i as nat, |j: int| (start.len() + j) as VertexId));
    }
    Ok(ids)
}

/// A fault found among the first corners is the fault found among more of them.
proof fn lemma_corners_fault_stays(
    face: FaceView,
    k: nat,
    n: nat,
    positions: usize,
    tex_coords: usize,
)
    requires
        k <= n,
        corners_fault(face, k, positions, tex_coords) is Some,
    ensures
        corners_fault(face, n, positions, tex_coords) == corners_fault(
            face,
            k,
            positions,
            tex_coords,
        ),
    decreases n - k,
{
    if k < n {
        lemma_corners_fault_stays(face, k, (n - 1) as nat, positions, tex_coords);
    }
}

impl Node {
    /// Takes a mesh in and sets out to build its tree. Each face becomes a polygon
    /// with a vertex of its own for each corner and with the normal of its first
    /// corner. A mesh with a faulty face is turned down, with the first such face and
    /// its fault.
    pub fn from_obj(obj: &Mesh) -> (r: Result<Builder, IngestError>)
        ensures
            r is Ok <==> faultless(face_views(obj.faces@), obj.positions, obj.tex_coords, obj.normals),
            r matches Err(e) ==> first_fault(
                face_views(obj.faces@),
                e.face as int,
                obj.positions,
                obj.tex_coords,
                obj.normals,
            ) && Some(e.fault) == face_fault(
                face_views(obj.faces@)[e.face as int],
                obj.positions,
                obj.tex_coords,
                obj.normals,
            ),
            r matches Ok(builder) ==> {
                &&& builder@ == start(
                    soup(face_views(obj.faces@)).polygons,
                    soup(face_views(obj.faces@)).vertices,
                )
                &&& builder.wf()
            },
    {
        let ghost faces = face_views(obj.faces@);
        let mut vertices: Vec<Vertex> = Vec::new();
        let mut polygons: Vec<Ngon> = Vec::new();
        assert(views(polygons@) =~= Seq::<NgonView>::empty());
        let mut k: usize = 0;
        while k < obj.faces.len()
            invariant
                k <= obj.faces.len(),
                faces == face_views(obj.faces@),
                forall|j: int|
                    0 <= j < k ==> face_fault(
                        faces[j],
                        obj.positions,
                        obj.tex_coords,
                        obj.normals,
                    ) is None,
                vertices@ == soup_upto(faces, k as nat).vertices,
                views(polygons@) == soup_upto(faces, k as nat).polygons,
            decreases obj.faces.len() - k,
        {
            let face = &obj.faces[k];
            assert(face@ == faces[k as int]);
            let (count, norm) = match face {
                Face::PN(c) => (c.len(), if c.len() > 0 { c[0].1 } else { 0 }),
                Face::PTN(c) => (c.len(), if c.len() > 0 { c[0].2 } else { 0 }),
                _ => {
                    return Err(IngestError { face: k, fault: Fault::Unsupported });
                },
            };
            if count < 3 {
                return Err(IngestError { face: k, fault: Fault::TooFewVertices });
            }
            if norm >= obj.normals {
                return Err(IngestError { face: k, fault: Fault::NormalOutOfRange });
            }
            let ghost before = views(polygons@);
            match take_corners(face, obj.positions, obj.tex_coords, &mut vertices) {
                Err(fault) => {
                    return Err(IngestError { face: k, fault });
                },
                Ok(ids) => {
                    polygons.push(Ngon { v: ids, norm });
                },
            }
            k += 1;
            assert(views(polygons@) =~= soup_upto(faces, k as nat).polygons);
        }
        proof {
            assert(vertices.len() == vertices@.len());
            lemma_soup_wf(faces, faces.len(), obj.positions, obj.tex_coords, obj.normals);
        }
        Ok(Builder::new(polygons, vertices))
    }
}

} // verus!
