//! Vertices, polygons and the vertex arena.
use vstd::prelude::*;

verus! {

/// Handle of a vertex: its index in the vertex arena.
pub type VertexId = usize;

/// Three vertices that span a plane. Their order fixes which side is the front.
#[derive(Clone, Copy, Debug, PartialEq, Eq, Structural)]
pub struct PlaneTri {
    pub a: VertexId,
    pub b: VertexId,
    pub c: VertexId,
}

/// How a vertex came to be. Position and texture coordinate of a vertex follow from
/// this record: a corner takes them from the input mesh, a cut lies where the edge
/// `from`-`to` meets the plane, with both attributes interpolated at that one point.
#[derive(Clone, Copy, Debug, PartialEq, Eq, Structural)]
pub enum Vertex {
    /// A corner of an input face: indices into the mesh's positions and texture
    /// coordinates. A face without texture coordinates has `texture` absent.
    Corner { position: usize, texture: Option<usize> },
    /// The point where the edge from `from` to `to` crosses `plane`.
    Cut { plane: PlaneTri, from: VertexId, to: VertexId },
}

/// A planar polygon: its vertices in winding order and the index of its face normal.
#[derive(Debug, PartialEq, Eq)]
pub struct Ngon {
    pub v: Vec<VertexId>,
    pub norm: usize,
}

/// The mathematical value of an [`Ngon`].
pub struct NgonView {
    pub v: Seq<VertexId>,
    pub norm: usize,
}

impl View for Ngon {
    type V = NgonView;

    open spec fn view(&self) -> NgonView {
        NgonView { v: self.v@, norm: self.norm }
    }
}

impl Clone for Ngon {
    fn clone(&self) -> (r: Self)
        ensures
            r@ == self@,
    {
        Ngon { v: copy_ids(&self.v), norm: self.norm }
    }
}

/// The values of a list of polygons.
pub open spec fn views(polygons: Seq<Ngon>) -> Seq<NgonView> {
    polygons.map_values(|p: Ngon| p@)
}

/// The values of a list of vertex lists.
pub open spec fn id_lists(lists: Seq<Vec<VertexId>>) -> Seq<Seq<VertexId>> {
    lists.map_values(|l: Vec<VertexId>| l@)
}

/// A polygon has at least three vertices, each of them in an arena of `bound` vertices.
pub open spec fn ngon_wf(p: NgonView, bound: nat) -> bool {
    &&& p.v.len() >= 3
    &&& forall|i: int| 0 <= i < p.v.len() ==> (#[trigger] p.v[i]) < bound
}

/// Every polygon of the list is well formed in an arena of `bound` vertices.
pub open spec fn ngons_wf(polygons: Seq<NgonView>, bound: nat) -> bool {
    forall|k: int| 0 <= k < polygons.len() ==> ngon_wf(#[trigger] polygons[k], bound)
}

/// A cut refers only to vertices that stand before it in the arena.
pub open spec fn vertex_wf(v: Vertex, id: nat) -> bool {
    match v {
        Vertex::Corner { .. } => true,
        Vertex::Cut { plane, from, to } => {
            &&& plane.a < id
            &&& plane.b < id
            &&& plane.c < id
            &&& from < id
            &&& to < id
        },
    }
}

/// Every vertex of the arena is well formed at its own index.
pub open spec fn arena_wf(vertices: Seq<Vertex>) -> bool {
    forall|i: int| 0 <= i < vertices.len() ==> vertex_wf(#[trigger] vertices[i], i as nat)
}

/// Copies a list of vertex handles.
pub(crate) fn copy_ids(ids: &Vec<VertexId>) -> (r: Vec<VertexId>)
    ensures
        r@ == ids@,
{
    let mut out: Vec<VertexId> = Vec::new();
    let mut i: usize = 0;
    while i < ids.len()
        invariant
            i <= ids.len(),
            out@ == ids@.take(i as int),
        decreases ids.len() - i,
    {
        out.push(ids[i]);
        i += 1;
    }
    out
}

/// Copies a list of polygons.
pub(crate) fn copy_ngons(polygons: &Vec<Ngon>) -> (r: Vec<Ngon>)
    ensures
        views(r@) == views(polygons@),
{
    let mut out: Vec<Ngon> = Vec::new();
    let mut i: usize = 0;
    while i < polygons.len()
        invariant
            i <= polygons.len(),
            out@.len() == i,
            forall|j: int| 0 <= j < i ==> out@[j]@ == polygons@[j]@,
        decreases polygons.len() - i,
    {
        out.push(polygons[i].clone());
        i += 1;
    }
    assert(views(out@) =~= views(polygons@));
    out
}

} // verus!
