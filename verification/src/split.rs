//! Clipping one polygon against one plane.
use vstd::prelude::*;
use crate::mesh::{arena_wf, copy_ids, ngon_wf, vertex_wf, Ngon, NgonView, PlaneTri, Vertex, VertexId};
use crate::tree::Node;

verus! {

/// Where a point lies relative to a plane.
#[derive(Clone, Copy, Debug, PartialEq, Eq, Structural)]
pub enum PointInt {
    OnPlane,
    InFront,
    Behind,
}

/// The side of a point whose signed distance from a plane has been measured: in the
/// plane where the distance is within the tolerance, else behind where it is below
/// zero, else in front.
pub open spec fn side_of(within_tolerance: bool, below_zero: bool) -> PointInt {
    if within_tolerance {
        PointInt::OnPlane
    } else if below_zero {
        PointInt::Behind
    } else {
        PointInt::InFront
    }
}

impl PointInt {
    /// Tells the side of a point from two comparisons of its signed distance from the
    /// plane: whether its absolute value is below the tolerance, and whether it is
    /// below zero.
    pub fn classify(within_tolerance: bool, below_zero: bool) -> (r: PointInt)
        ensures
            r == side_of(within_tolerance, below_zero),
    {
        if within_tolerance {
            PointInt::OnPlane
        } else if below_zero {
            PointInt::Behind
        } else {
            PointInt::InFront
        }
    }
}

/// Where a polygon lies relative to a plane. A polygon that reaches both sides is
/// split into its front part and its behind part, in this order.
#[derive(Debug, PartialEq, Eq)]
pub enum Intersection {
    OnPlane,
    InFront,
    Behind,
    Split(Ngon, Ngon),
}

/// The mathematical value of an [`Intersection`].
pub enum IntersectionView {
    OnPlane,
    InFront,
    Behind,
    Split(NgonView, NgonView),
}

impl View for Intersection {
    type V = IntersectionView;

    open spec fn view(&self) -> IntersectionView {
        match self {
            Intersection::OnPlane => IntersectionView::OnPlane,
            Intersection::InFront => IntersectionView::InFront,
            Intersection::Behind => IntersectionView::Behind,
            Intersection::Split(front, behind) => IntersectionView::Split(front@, behind@),
        }
    }
}

/// Every vertex lies in the plane.
pub open spec fn all_on_plane(sides: Seq<PointInt>) -> bool {
    forall|i: int| 0 <= i < sides.len() ==> sides[i] == PointInt::OnPlane
}

/// The side of the last vertex among the first `k` that is off the plane;
/// `OnPlane` if there is none.
pub open spec fn last_side(sides: Seq<PointInt>, k: int) -> PointInt
    decreases k,
{
    if k <= 0 {
        PointInt::OnPlane
    } else if sides[k - 1] != PointInt::OnPlane {
        sides[k - 1]
    } else {
        last_side(sides, k - 1)
    }
}

/// The side on which the boundary runs when it arrives at vertex `i`: that of the
/// nearest vertex off the plane before `i`, going backward around the polygon.
pub open spec fn state_before(sides: Seq<PointInt>, i: int) -> PointInt {
    let s = last_side(sides, i);
    if s != PointInt::OnPlane {
        s
    } else {
        last_side(sides, sides.len() as int)
    }
}

/// The side on which the boundary runs when it leaves vertex `i`.
pub open spec fn state_after(sides: Seq<PointInt>, i: int) -> PointInt {
    state_before(sides, i + 1)
}

/// The boundary changes sides on the edge that arrives at vertex `i`.
pub open spec fn crosses(sides: Seq<PointInt>, i: int) -> bool {
    sides[i] != PointInt::OnPlane && sides[i] != state_before(sides, i)
}

/// The index of the vertex before `i` on the boundary of a polygon of `n` vertices.
pub open spec fn pred(n: int, i: int) -> int {
    if i == 0 {
        n - 1
    } else {
        i - 1
    }
}

/// What a walk along the boundary has gathered.
pub struct Walk {
    /// The vertices of the front part.
    pub front: Seq<VertexId>,
    /// The vertices of the behind part.
    pub behind: Seq<VertexId>,
    /// The vertices in the plane: the cuts and the polygon's own vertices on it.
    pub portal: Seq<VertexId>,
    /// The cuts made, in the order in which they enter the arena.
    pub cuts: Seq<Vertex>,
}

/// The walk over the first `k` vertices of a polygon that does not lie in the plane.
/// A cut made when `c` cuts exist already gets the handle `first + c`.
///
/// At vertex `i` a cut is made first if the boundary changes sides there; it joins
/// both parts and the portal. A vertex in the plane joins the portal. Then the vertex
/// joins the part of the side on which the boundary leaves it.
pub open spec fn walk(
    v: Seq<VertexId>,
    sides: Seq<PointInt>,
    plane: PlaneTri,
    first: nat,
    k: nat,
) -> Walk
    decreases k,
{
    if k == 0 {
        Walk { front: seq![], behind: seq![], portal: seq![], cuts: seq![] }
    } else {
        let i = k - 1;
        let w = walk(v, sides, plane, first, i as nat);
        let id = (first + w.cuts.len()) as VertexId;
        let cut = if crosses(sides, i) {
            seq![id]
        } else {
            seq![]
        };
        let here = seq![v[i]];
        let behind_now = state_after(sides, i) == PointInt::Behind;
        Walk {
            front: w.front + cut + if behind_now {
                seq![]
            } else {
                here
            },
            behind: w.behind + cut + if behind_now {
                here
            } else {
                seq![]
            },
            portal: w.portal + cut + if sides[i] == PointInt::OnPlane {
                here
            } else {
                seq![]
            },
            cuts: w.cuts + if crosses(sides, i) {
                seq![Vertex::Cut { plane, from: v[pred(v.len() as int, i)], to: v[i] }]
            } else {
                seq![]
            },
        }
    }
}

/// The outcome of clipping a polygon.
pub struct Outcome {
    pub kind: IntersectionView,
    /// The vertices that the polygon has in the plane.
    pub portal: Seq<VertexId>,
    /// The vertices that the clipping adds to the arena.
    pub cuts: Seq<Vertex>,
}

/// Clipping the polygon `p`, whose vertex `i` lies on `sides[i]` of `plane`, with an
/// arena that holds `first` vertices.
///
/// A polygon with every vertex in the plane is left whole, and all its vertices are
/// its portal. Otherwise the boundary is walked: with nothing in front the polygon is
/// behind, with nothing behind it is in front, else it is split in two parts that
/// keep its normal.
pub open spec fn split(p: NgonView, sides: Seq<PointInt>, plane: PlaneTri, first: nat) -> Outcome {
    if all_on_plane(sides) {
        Outcome { kind: IntersectionView::OnPlane, portal: p.v, cuts: seq![] }
    } else {
        let w = walk(p.v, sides, plane, first, p.v.len());
        Outcome {
            kind: if w.front.len() == 0 {
                IntersectionView::Behind
            } else if w.behind.len() == 0 {
                IntersectionView::InFront
            } else {
                IntersectionView::Split(
                    NgonView { v: w.front, norm: p.norm },
                    NgonView { v: w.behind, norm: p.norm },
                )
            },
            portal: w.portal,
            cuts: w.cuts,
        }
    }
}

/// No vertex among the first `k` is off the plane exactly when `last_side` finds none.
proof fn lemma_last_side_on_plane(sides: Seq<PointInt>, k: int)
    requires
        0 <= k <= sides.len(),
    ensures
        last_side(sides, k) == PointInt::OnPlane <==> forall|j: int|
            0 <= j < k ==> sides[j] == PointInt::OnPlane,
    decreases k,
{
    if k > 0 {
        lemma_last_side_on_plane(sides, k - 1);
    }
}

/// The side on which the boundary leaves a vertex is the vertex's own, unless the
/// vertex lies in the plane: then it is the side on which the boundary arrived.
proof fn lemma_state_after(sides: Seq<PointInt>, i: int)
    requires
        0 <= i < sides.len(),
    ensures
        state_after(sides, i) == if sides[i] != PointInt::OnPlane {
            sides[i]
        } else {
            state_before(sides, i)
        },
{
}

/// Counts along the walk. Each cut joins both parts; each vertex joins one part; the
/// boundary is back on the side it started from exactly after an even number of cuts.
proof fn lemma_walk_counts(
    v: Seq<VertexId>,
    sides: Seq<PointInt>,
    plane: PlaneTri,
    first: nat,
    k: nat,
)
    requires
        sides.len() == v.len(),
        k <= v.len(),
        !all_on_plane(sides),
    ensures
        ({
            let w = walk(v, sides, plane, first, k);
            let c = w.cuts.len();
            let start = last_side(sides, sides.len() as int);
            let now = state_before(sides, k as int);
            &&& start != PointInt::OnPlane
            &&& now != PointInt::OnPlane
            &&& c <= k
            &&& w.portal.len() <= k
            &&& w.front.len() + w.behind.len() == 2 * c + k
            &&& w.front.len() >= c
            &&& w.behind.len() >= c
            &&& (now == start) <==> c % 2 == 0
            &&& k >= 1 ==> if now == PointInt::Behind {
                w.behind.len() > c
            } else {
                w.front.len() > c
            }
            &&& c >= 1 ==> if start == PointInt::Behind {
                w.front.len() > c
            } else {
                w.behind.len() > c
            }
            &&& c == 0 ==> if start == PointInt::Behind {
                w.front.len() == 0
            } else {
                w.behind.len() == 0
            }
        }),
    decreases k,
{
    lemma_last_side_on_plane(sides, sides.len() as int);
    if k > 0 {
        lemma_walk_counts(v, sides, plane, first, (k - 1) as nat);
        lemma_state_after(sides, k - 1);
    }
}

/// A polygon that is split has at least two cuts, and each part has at least three
/// vertices.
pub proof fn lemma_split_parts(p: NgonView, sides: Seq<PointInt>, plane: PlaneTri, first: nat)
    requires
        sides.len() == p.v.len(),
    ensures
        split(p, sides, plane, first).cuts.len() <= p.v.len(),
        split(p, sides, plane, first).portal.len() <= p.v.len(),
        split(p, sides, plane, first).kind matches IntersectionView::Split(front, behind) ==> {
            &&& split(p, sides, plane, first).cuts.len() >= 2
            &&& front.v.len() >= 3
            &&& behind.v.len() >= 3
            &&& front.norm == p.norm
            &&& behind.norm == p.norm
        },
{
    if !all_on_plane(sides) {
        lemma_walk_counts(p.v, sides, plane, first, p.v.len());
    }
}

/// Every handle that the walk hands out is a vertex of the polygon or one of the
/// cuts, and each cut refers to vertices of the polygon and of the plane.
proof fn lemma_walk_ids(
    v: Seq<VertexId>,
    sides: Seq<PointInt>,
    plane: PlaneTri,
    first: nat,
    k: nat,
)
    requires
        sides.len() == v.len(),
        k <= v.len(),
        first + walk(v, sides, plane, first, k).cuts.len() <= usize::MAX,
        forall|i: int| 0 <= i < v.len() ==> (#[trigger] v[i]) < first,
        plane.a < first,
        plane.b < first,
        plane.c < first,
    ensures
        ({
            let w = walk(v, sides, plane, first, k);
            let bound = first + w.cuts.len();
            &&& w.cuts.len() <= k
            &&& forall|i: int| 0 <= i < w.front.len() ==> (#[trigger] w.front[i]) < bound
            &&& forall|i: int| 0 <= i < w.behind.len() ==> (#[trigger] w.behind[i]) < bound
            &&& forall|i: int| 0 <= i < w.portal.len() ==> (#[trigger] w.portal[i]) < bound
            &&& forall|i: int|
                0 <= i < w.cuts.len() ==> vertex_wf(#[trigger] w.cuts[i], (first + i) as nat)
        }),
    decreases k,
{
    if k > 0 {
        lemma_walk_ids(v, sides, plane, first, (k - 1) as nat);
    }
}

/// Clipping keeps polygons and arena well formed: the portal and the parts name
/// vertices of the grown arena only, and each cut refers to vertices before it.
pub proof fn lemma_split_wf(
    p: NgonView,
    sides: Seq<PointInt>,
    plane: PlaneTri,
    vertices: Seq<Vertex>,
)
    requires
        sides.len() == p.v.len(),
        vertices.len() + split(p, sides, plane, vertices.len()).cuts.len() <= usize::MAX,
        arena_wf(vertices),
        forall|i: int| 0 <= i < p.v.len() ==> (#[trigger] p.v[i]) < vertices.len(),
        plane.a < vertices.len(),
        plane.b < vertices.len(),
        plane.c < vertices.len(),
    ensures
        ({
            let o = split(p, sides, plane, vertices.len());
            let bound = vertices.len() + o.cuts.len();
            &&& arena_wf(vertices + o.cuts)
            &&& forall|i: int| 0 <= i < o.portal.len() ==> (#[trigger] o.portal[i]) < bound
            &&& o.kind matches IntersectionView::Split(front, behind) ==> ngon_wf(front, bound)
                && ngon_wf(behind, bound)
        }),
{
    lemma_split_parts(p, sides, plane, vertices.len());
    if !all_on_plane(sides) {
        lemma_walk_ids(p.v, sides, plane, vertices.len(), p.v.len());
    }
}

/// The cut on the edge that arrives at vertex `i`.
pub open spec fn edge_cut(v: Seq<VertexId>, plane: PlaneTri, i: int) -> Vertex {
    Vertex::Cut { plane, from: v[pred(v.len() as int, i)], to: v[i] }
}

/// The cut lies on an edge of the polygon whose ends are told apart: the end it
/// arrives at is off the plane, and the end it comes from is in the plane or on the
/// other side.
pub open spec fn cut_on_crossing_edge(
    v: Seq<VertexId>,
    sides: Seq<PointInt>,
    plane: PlaneTri,
    cut: Vertex,
) -> bool {
    exists|i: int|
        0 <= i < v.len() && #[trigger] edge_cut(v, plane, i) == cut && sides[i]
            != PointInt::OnPlane && sides[pred(v.len() as int, i)] != sides[i]
}

/// Every cut of the walk is made on an edge whose two ends lie on different sides,
/// so that the edge cannot run along the plane.
proof fn lemma_cuts_cross(
    v: Seq<VertexId>,
    sides: Seq<PointInt>,
    plane: PlaneTri,
    first: nat,
    k: nat,
)
    requires
        sides.len() == v.len(),
        k <= v.len(),
    ensures
        forall|j: int|
            0 <= j < walk(v, sides, plane, first, k).cuts.len() ==> cut_on_crossing_edge(
                v,
                sides,
                plane,
                #[trigger] walk(v, sides, plane, first, k).cuts[j],
            ),
    decreases k,
{
    if k > 0 {
        let i = k - 1;
        let u = walk(v, sides, plane, first, i as nat);
        let w = walk(v, sides, plane, first, k);
        lemma_cuts_cross(v, sides, plane, first, i as nat);
        assert forall|j: int| 0 <= j < w.cuts.len() implies cut_on_crossing_edge(
            v,
            sides,
            plane,
            #[trigger] w.cuts[j],
        ) by {
            if j < u.cuts.len() {
                assert(w.cuts[j] == u.cuts[j]);
            } else {
                assert(crosses(sides, i));
                assert(w.cuts[j] == edge_cut(v, plane, i));
                assert(sides[pred(v.len() as int, i)] != sides[i]);
            }
        }
    }
}

/// Every cut that clipping makes lies on an edge of the polygon whose two ends lie
/// on different sides of the plane.
pub proof fn lemma_split_cuts_cross(
    p: NgonView,
    sides: Seq<PointInt>,
    plane: PlaneTri,
    first: nat,
)
    requires
        sides.len() == p.v.len(),
    ensures
        forall|j: int|
            0 <= j < split(p, sides, plane, first).cuts.len() ==> cut_on_crossing_edge(
                p.v,
                sides,
                plane,
                #[trigger] split(p, sides, plane, first).cuts[j],
            ),
{
    lemma_cuts_cross(p.v, sides, plane, first, p.v.len());
}

/// The handle is that of a vertex of the polygon which does not lie on the side
/// `avoid`.
pub open spec fn vertex_off_side(
    x: VertexId,
    v: Seq<VertexId>,
    sides: Seq<PointInt>,
    avoid: PointInt,
) -> bool {
    exists|i: int| 0 <= i < v.len() && #[trigger] v[i] == x && sides[i] != avoid
}

/// The handle is that of one of the first `cuts` cuts made in an arena that held
/// `first` vertices.
pub open spec fn is_cut(x: VertexId, first: nat, cuts: nat) -> bool {
    first <= x < first + cuts
}

/// The front part keeps to the front and the behind part keeps behind: every vertex
/// of the front part is a cut or a vertex of the polygon that does not lie behind,
/// every vertex of the behind part is a cut or a vertex that does not lie in front,
/// and every vertex of the portal is a cut or a vertex in the plane.
proof fn lemma_parts_keep_sides(
    v: Seq<VertexId>,
    sides: Seq<PointInt>,
    plane: PlaneTri,
    first: nat,
    k: nat,
)
    requires
        sides.len() == v.len(),
        k <= v.len(),
        first + walk(v, sides, plane, first, k).cuts.len() <= usize::MAX,
    ensures
        ({
            let w = walk(v, sides, plane, first, k);
            &&& forall|j: int|
                0 <= j < w.front.len() ==> is_cut(#[trigger] w.front[j], first, w.cuts.len())
                    || vertex_off_side(w.front[j], v, sides, PointInt::Behind)
            &&& forall|j: int|
                0 <= j < w.behind.len() ==> is_cut(#[trigger] w.behind[j], first, w.cuts.len())
                    || vertex_off_side(w.behind[j], v, sides, PointInt::InFront)
            &&& forall|j: int|
                0 <= j < w.portal.len() ==> is_cut(#[trigger] w.portal[j], first, w.cuts.len())
                    || (exists|i: int|
                    0 <= i < v.len() && #[trigger] v[i] == w.portal[j] && sides[i]
                        == PointInt::OnPlane)
        }),
    decreases k,
{
    if k > 0 {
        let i = k - 1;
        let u = walk(v, sides, plane, first, i as nat);
        let w = walk(v, sides, plane, first, k);
        lemma_parts_keep_sides(v, sides, plane, first, i as nat);
        lemma_state_after(sides, i);
        let c = u.cuts.len();
        assert forall|j: int| 0 <= j < w.front.len() implies is_cut(
            #[trigger] w.front[j],
            first,
            w.cuts.len(),
        ) || vertex_off_side(w.front[j], v, sides, PointInt::Behind) by {
            if j < u.front.len() {
                assert(w.front[j] == u.front[j]);
            } else if crosses(sides, i) && j == u.front.len() {
                assert(w.front[j] == first + c);
            } else {
                assert(w.front[j] == v[i]);
                assert(sides[i] != PointInt::Behind);
            }
        }
        assert forall|j: int| 0 <= j < w.behind.len() implies is_cut(
            #[trigger] w.behind[j],
            first,
            w.cuts.len(),
        ) || vertex_off_side(w.behind[j], v, sides, PointInt::InFront) by {
            if j < u.behind.len() {
                assert(w.behind[j] == u.behind[j]);
            } else if crosses(sides, i) && j == u.behind.len() {
                assert(w.behind[j] == first + c);
            } else {
                assert(w.behind[j] == v[i]);
                assert(sides[i] != PointInt::InFront);
            }
        }
        assert forall|j: int| 0 <= j < w.portal.len() implies is_cut(
            #[trigger] w.portal[j],
            first,
            w.cuts.len(),
        ) || (exists|t: int|
            0 <= t < v.len() && #[trigger] v[t] == w.portal[j] && sides[t] == PointInt::OnPlane) by {
            if j < u.portal.len() {
                assert(w.portal[j] == u.portal[j]);
            } else if crosses(sides, i) && j == u.portal.len() {
                assert(w.portal[j] == first + c);
            } else {
                assert(w.portal[j] == v[i]);
                assert(sides[i] == PointInt::OnPlane);
            }
        }
    }
}

/// A part that is empty has been joined by no vertex: with an empty behind part no
/// vertex passed lies behind, with an empty front part none lies in front.
proof fn lemma_empty_part(
    v: Seq<VertexId>,
    sides: Seq<PointInt>,
    plane: PlaneTri,
    first: nat,
    k: nat,
)
    requires
        sides.len() == v.len(),
        k <= v.len(),
        !all_on_plane(sides),
    ensures
        walk(v, sides, plane, first, k).behind.len() == 0 ==> forall|i: int|
            0 <= i < k ==> sides[i] != PointInt::Behind,
        walk(v, sides, plane, first, k).front.len() == 0 ==> forall|i: int|
            0 <= i < k ==> sides[i] != PointInt::InFront,
    decreases k,
{
    if k > 0 {
        lemma_empty_part(v, sides, plane, first, (k - 1) as nat);
        lemma_state_after(sides, k - 1);
        lemma_walk_counts(v, sides, plane, first, k);
    }
}

/// Where clipping puts a polygon, there it lies: a polygon in front has no vertex
/// behind the plane, a polygon behind has none in front, and of a polygon that is
/// split the front part has, besides the cuts, only vertices that do not lie behind,
/// and the behind part only vertices that do not lie in front.
pub proof fn lemma_split_keeps_sides(
    p: NgonView,
    sides: Seq<PointInt>,
    plane: PlaneTri,
    first: nat,
)
    requires
        sides.len() == p.v.len(),
        first + split(p, sides, plane, first).cuts.len() <= usize::MAX,
    ensures
        ({
            let o = split(p, sides, plane, first);
            &&& o.kind is InFront ==> forall|i: int|
                0 <= i < sides.len() ==> sides[i] != PointInt::Behind
            &&& o.kind is Behind ==> forall|i: int|
                0 <= i < sides.len() ==> sides[i] != PointInt::InFront
            &&& o.kind matches IntersectionView::Split(front, behind) ==> {
                &&& forall|j: int|
                    0 <= j < front.v.len() ==> is_cut(#[trigger] front.v[j], first, o.cuts.len())
                        || vertex_off_side(front.v[j], p.v, sides, PointInt::Behind)
                &&& forall|j: int|
                    0 <= j < behind.v.len() ==> is_cut(
                        #[trigger] behind.v[j],
                        first,
                        o.cuts.len(),
                    ) || vertex_off_side(behind.v[j], p.v, sides, PointInt::InFront)
            }
        }),
{
    if !all_on_plane(sides) {
        lemma_empty_part(p.v, sides, plane, first, p.v.len());
        lemma_parts_keep_sides(p.v, sides, plane, first, p.v.len());
    }
}

/// The polygon does not lie in the plane, and it keeps to one side of it: no vertex
/// lies behind, or none lies in front.
pub open spec fn one_sided(sides: Seq<PointInt>) -> bool {
    &&& !all_on_plane(sides)
    &&& (forall|i: int| 0 <= i < sides.len() ==> sides[i] != PointInt::Behind) || (forall|i: int|
        0 <= i < sides.len() ==> sides[i] != PointInt::InFront)
}

/// Where no vertex lies on a side, the boundary never runs on it.
proof fn lemma_state_avoids(sides: Seq<PointInt>, avoid: PointInt, k: int)
    requires
        0 <= k <= sides.len(),
        avoid != PointInt::OnPlane,
        forall|i: int| 0 <= i < sides.len() ==> sides[i] != avoid,
    ensures
        last_side(sides, k) != avoid,
        state_before(sides, k) != avoid,
    decreases k,
{
    lemma_last_side_avoids(sides, avoid, sides.len() as int);
    lemma_last_side_avoids(sides, avoid, k);
}

/// Where no vertex lies on a side, the last vertex off the plane does not either.
proof fn lemma_last_side_avoids(sides: Seq<PointInt>, avoid: PointInt, k: int)
    requires
        0 <= k <= sides.len(),
        avoid != PointInt::OnPlane,
        forall|i: int| 0 <= i < sides.len() ==> sides[i] != avoid,
    ensures
        last_side(sides, k) != avoid,
    decreases k,
{
    if k > 0 {
        lemma_last_side_avoids(sides, avoid, k - 1);
    }
}

/// The walk over a polygon that keeps to one side makes no cut and fills one part.
proof fn lemma_walk_one_sided(
    v: Seq<VertexId>,
    sides: Seq<PointInt>,
    plane: PlaneTri,
    first: nat,
    avoid: PointInt,
    k: nat,
)
    requires
        sides.len() == v.len(),
        k <= v.len(),
        !all_on_plane(sides),
        avoid != PointInt::OnPlane,
        forall|i: int| 0 <= i < sides.len() ==> sides[i] != avoid,
    ensures
        ({
            let w = walk(v, sides, plane, first, k);
            &&& w.cuts.len() == 0
            &&& if avoid == PointInt::Behind {
                w.behind.len() == 0 && w.front.len() == k
            } else {
                w.front.len() == 0 && w.behind.len() == k
            }
        }),
    decreases k,
{
    if k > 0 {
        let i = k - 1;
        lemma_walk_one_sided(v, sides, plane, first, avoid, i as nat);
        lemma_last_side_on_plane(sides, sides.len() as int);
        lemma_state_avoids(sides, avoid, i);
        lemma_state_avoids(sides, avoid, i + 1);
        lemma_state_after(sides, i);
        assert(state_before(sides, i) != PointInt::OnPlane);
        assert(state_after(sides, i) != PointInt::OnPlane);
    }
}

/// A polygon that keeps to one side of the plane is neither split nor cut: with no
/// vertex behind it is in front, with no vertex in front it is behind.
pub proof fn lemma_one_sided(p: NgonView, sides: Seq<PointInt>, plane: PlaneTri, first: nat)
    requires
        sides.len() == p.v.len(),
        one_sided(sides),
    ensures
        split(p, sides, plane, first).cuts.len() == 0,
        split(p, sides, plane, first).kind is InFront || split(p, sides, plane, first).kind is Behind,
        split(p, sides, plane, first).kind is InFront <==> forall|i: int|
            0 <= i < sides.len() ==> sides[i] != PointInt::Behind,
{
    lemma_last_side_on_plane(sides, sides.len() as int);
    if forall|i: int| 0 <= i < sides.len() ==> sides[i] != PointInt::Behind {
        lemma_walk_one_sided(p.v, sides, plane, first, PointInt::Behind, p.v.len());
    } else {
        lemma_walk_one_sided(p.v, sides, plane, first, PointInt::InFront, p.v.len());
    }
}

/// A polygon with every vertex in the plane is on the plane, whole and uncut, and no
/// other polygon is.
pub proof fn lemma_on_plane(p: NgonView, sides: Seq<PointInt>, plane: PlaneTri, first: nat)
    requires
        sides.len() == p.v.len(),
    ensures
        all_on_plane(sides) <==> split(p, sides, plane, first).kind is OnPlane,
        all_on_plane(sides) ==> split(p, sides, plane, first).portal == p.v && split(
            p,
            sides,
            plane,
            first,
        ).cuts.len() == 0,
{
}

/// A polygon whose vertices all lie within the tolerance of the plane is on the
/// plane, whatever the signs of their distances.
pub proof fn lemma_within_tolerance_on_plane(
    p: NgonView,
    within: Seq<bool>,
    below: Seq<bool>,
    plane: PlaneTri,
    first: nat,
)
    requires
        within.len() == p.v.len(),
        below.len() == p.v.len(),
        forall|i: int| 0 <= i < within.len() ==> within[i],
    ensures
        split(
            p,
            Seq::new(p.v.len(), |i: int| side_of(within[i], below[i])),
            plane,
            first,
        ).kind is OnPlane,
        split(
            p,
            Seq::new(p.v.len(), |i: int| side_of(within[i], below[i])),
            plane,
            first,
        ).portal == p.v,
{
}

/// No vertex lies in the plane; those from `i1` up to `i2` lie on the side `run` and
/// all others on the other side.
pub open spec fn crossed_once(sides: Seq<PointInt>, i1: int, i2: int, run: PointInt) -> bool {
    &&& 0 <= i1 < i2 < sides.len()
    &&& run != PointInt::OnPlane
    &&& forall|i: int|
        0 <= i < sides.len() ==> (#[trigger] sides[i]) != PointInt::OnPlane && (sides[i] == run
            <==> i1 <= i < i2)
}

/// The walk over a polygon that the plane crosses once, as far as vertex `k`: the
/// part of the run, the part of the rest, and the cuts.
pub open spec fn crossed_walk(
    v: Seq<VertexId>,
    plane: PlaneTri,
    first: nat,
    i1: int,
    i2: int,
    k: int,
) -> (Seq<VertexId>, Seq<VertexId>, Seq<Vertex>) {
    let c0 = first as VertexId;
    let c1 = (first + 1) as VertexId;
    let cut0 = Vertex::Cut { plane, from: v[pred(v.len() as int, i1)], to: v[i1] };
    let cut1 = Vertex::Cut { plane, from: v[pred(v.len() as int, i2)], to: v[i2] };
    if k <= i1 {
        (seq![], v.subrange(0, k), seq![])
    } else if k <= i2 {
        (seq![c0] + v.subrange(i1, k), v.subrange(0, i1) + seq![c0], seq![cut0])
    } else {
        (
            seq![c0] + v.subrange(i1, i2) + seq![c1],
            v.subrange(0, i1) + seq![c0, c1] + v.subrange(i2, k),
            seq![cut0, cut1],
        )
    }
}

/// Without a vertex in the plane the boundary arrives at a vertex on the side of the
/// vertex before it.
proof fn lemma_state_off_plane(sides: Seq<PointInt>, i: int)
    requires
        0 <= i <= sides.len(),
        sides.len() > 0,
        forall|j: int| 0 <= j < sides.len() ==> (#[trigger] sides[j]) != PointInt::OnPlane,
    ensures
        state_before(sides, i) == sides[pred(sides.len() as int, i)],
{
    if i == 0 {
        assert(sides[sides.len() - 1] != PointInt::OnPlane);
    } else {
        assert(sides[i - 1] != PointInt::OnPlane);
    }
}

/// One step of the walk over a polygon without a vertex in the plane: a cut where
/// the vertex lies on another side than the one before it, then the vertex itself.
proof fn lemma_walk_step(
    v: Seq<VertexId>,
    sides: Seq<PointInt>,
    plane: PlaneTri,
    first: nat,
    k: nat,
)
    requires
        sides.len() == v.len(),
        0 < k <= v.len(),
        forall|j: int| 0 <= j < sides.len() ==> (#[trigger] sides[j]) != PointInt::OnPlane,
    ensures
        ({
            let i = k - 1;
            let u = walk(v, sides, plane, first, i as nat);
            let w = walk(v, sides, plane, first, k);
            let h = pred(v.len() as int, i);
            let id = (first + u.cuts.len()) as VertexId;
            let behind_now = sides[i] == PointInt::Behind;
            if sides[i] != sides[h] {
                &&& w.cuts == u.cuts.push(Vertex::Cut { plane, from: v[h], to: v[i] })
                &&& w.portal == u.portal.push(id)
                &&& w.front == if behind_now {
                    u.front.push(id)
                } else {
                    u.front.push(id).push(v[i])
                }
                &&& w.behind == if behind_now {
                    u.behind.push(id).push(v[i])
                } else {
                    u.behind.push(id)
                }
            } else {
                &&& w.cuts == u.cuts
                &&& w.portal == u.portal
                &&& w.front == if behind_now {
                    u.front
                } else {
                    u.front.push(v[i])
                }
                &&& w.behind == if behind_now {
                    u.behind.push(v[i])
                } else {
                    u.behind
                }
            }
        }),
{
    let i = k - 1;
    let u = walk(v, sides, plane, first, i as nat);
    let w = walk(v, sides, plane, first, k);
    lemma_state_off_plane(sides, i);
    lemma_state_off_plane(sides, i + 1);
    assert(sides[i] != PointInt::OnPlane);
    assert(state_after(sides, i) == sides[i]);
    let id = (first + u.cuts.len()) as VertexId;
    if crosses(sides, i) {
        assert(w.cuts =~= u.cuts.push(
            Vertex::Cut { plane, from: v[pred(v.len() as int, i)], to: v[i] },
        ));
        assert(w.portal =~= u.portal.push(id));
        assert(w.front =~= if sides[i] == PointInt::Behind {
            u.front.push(id)
        } else {
            u.front.push(id).push(v[i])
        });
        assert(w.behind =~= if sides[i] == PointInt::Behind {
            u.behind.push(id).push(v[i])
        } else {
            u.behind.push(id)
        });
    } else {
        assert(w.cuts =~= u.cuts);
        assert(w.portal =~= u.portal);
        assert(w.front =~= if sides[i] == PointInt::Behind {
            u.front
        } else {
            u.front.push(v[i])
        });
        assert(w.behind =~= if sides[i] == PointInt::Behind {
            u.behind.push(v[i])
        } else {
            u.behind
        });
    }
}

/// One vertex more on the walk over a polygon that the plane crosses once.
proof fn lemma_crossed_step(
    v: Seq<VertexId>,
    plane: PlaneTri,
    first: nat,
    i1: int,
    i2: int,
    i: int,
)
    requires
        0 <= i1 < i2 < v.len(),
        0 <= i < v.len(),
    ensures
        ({
            let y = crossed_walk(v, plane, first, i1, i2, i);
            let x = crossed_walk(v, plane, first, i1, i2, i + 1);
            let c0 = first as VertexId;
            let c1 = (first + 1) as VertexId;
            let h = pred(v.len() as int, i);
            &&& x.0 == if i == i1 {
                y.0.push(c0).push(v[i])
            } else if i == i2 {
                y.0.push(c1)
            } else if i1 < i < i2 {
                y.0.push(v[i])
            } else {
                y.0
            }
            &&& x.1 == if i == i1 {
                y.1.push(c0)
            } else if i == i2 {
                y.1.push(c1).push(v[i])
            } else if i1 < i < i2 {
                y.1
            } else {
                y.1.push(v[i])
            }
            &&& x.2 == if i == i1 || i == i2 {
                y.2.push(Vertex::Cut { plane, from: v[h], to: v[i] })
            } else {
                y.2
            }
            &&& y.2.len() == if i <= i1 {
                0nat
            } else if i <= i2 {
                1nat
            } else {
                2nat
            }
        }),
{
    let y = crossed_walk(v, plane, first, i1, i2, i);
    let x = crossed_walk(v, plane, first, i1, i2, i + 1);
    let c0 = first as VertexId;
    let c1 = (first + 1) as VertexId;
    let h = pred(v.len() as int, i);
    if i < i1 {
        assert(x.0 =~= y.0);
        assert(x.1 =~= y.1.push(v[i]));
        assert(x.2 =~= y.2);
    } else if i == i1 {
        assert(x.0 =~= y.0.push(c0).push(v[i]));
        assert(x.1 =~= y.1.push(c0));
        assert(x.2 =~= y.2.push(Vertex::Cut { plane, from: v[h], to: v[i] }));
    } else if i < i2 {
        assert(x.0 =~= y.0.push(v[i]));
        assert(x.1 =~= y.1);
        assert(x.2 =~= y.2);
    } else if i == i2 {
        assert(x.0 =~= y.0.push(c1));
        assert(x.1 =~= y.1.push(c1).push(v[i]));
        assert(x.2 =~= y.2.push(Vertex::Cut { plane, from: v[h], to: v[i] }));
    } else {
        assert(x.0 =~= y.0);
        assert(x.1 =~= y.1.push(v[i]));
        assert(x.2 =~= y.2);
    }
}

/// The walk over a polygon that the plane crosses once.
proof fn lemma_crossed_walk(
    v: Seq<VertexId>,
    sides: Seq<PointInt>,
    plane: PlaneTri,
    first: nat,
    i1: int,
    i2: int,
    run: PointInt,
    k: nat,
)
    requires
        sides.len() == v.len(),
        crossed_once(sides, i1, i2, run),
        k <= v.len(),
        first + 2 <= usize::MAX,
    ensures
        ({
            let w = walk(v, sides, plane, first, k);
            let x = crossed_walk(v, plane, first, i1, i2, k as int);
            &&& w.cuts == x.2
            &&& w.portal == Seq::new(x.2.len(), |j: int| (first + j) as VertexId)
            &&& if run == PointInt::Behind {
                w.behind == x.0 && w.front == x.1
            } else {
                w.front == x.0 && w.behind == x.1
            }
        }),
    decreases k,
{
    let w = walk(v, sides, plane, first, k);
    let x = crossed_walk(v, plane, first, i1, i2, k as int);
    if k == 0 {
        assert(x.1 =~= Seq::<VertexId>::empty());
        assert(w.portal =~= Seq::new(x.2.len(), |j: int| (first + j) as VertexId));
    } else {
        let i = k - 1;
        lemma_crossed_walk(v, sides, plane, first, i1, i2, run, i as nat);
        lemma_walk_step(v, sides, plane, first, k);
        lemma_crossed_step(v, plane, first, i1, i2, i);
        let u = walk(v, sides, plane, first, i as nat);
        let y = crossed_walk(v, plane, first, i1, i2, i);
        let h = pred(v.len() as int, i);
        assert(sides[i] == run <==> i1 <= i < i2);
        assert(sides[h] == run <==> i1 <= h < i2);
        assert(sides[i] != PointInt::OnPlane && sides[h] != PointInt::OnPlane);
        assert(sides[i] != sides[h] <==> (i == i1 || i == i2));
        assert(u.portal == Seq::new(y.2.len(), |j: int| (first + j) as VertexId));
        assert(w.portal =~= Seq::new(x.2.len(), |j: int| (first + j) as VertexId));
    }
}

/// A polygon that a plane crosses once, with no vertex in the plane, is split by two
/// cuts into the two arcs of its boundary: the vertices from `i1` up to `i2` between
/// the first cut and the second, and the others with the two cuts where that arc was.
/// Between them the parts hold every vertex of the polygon once, in its order, and
/// the edge from cut to cut is in both.
pub proof fn lemma_crossed_once(
    p: NgonView,
    sides: Seq<PointInt>,
    plane: PlaneTri,
    first: nat,
    i1: int,
    i2: int,
    run: PointInt,
)
    requires
        sides.len() == p.v.len(),
        crossed_once(sides, i1, i2, run),
        first + 2 <= usize::MAX,
    ensures
        ({
            let o = split(p, sides, plane, first);
            let n = p.v.len() as int;
            let c0 = first as VertexId;
            let c1 = (first + 1) as VertexId;
            let arc = NgonView { v: seq![c0] + p.v.subrange(i1, i2) + seq![c1], norm: p.norm };
            let rest = NgonView {
                v: p.v.subrange(0, i1) + seq![c0, c1] + p.v.subrange(i2, n),
                norm: p.norm,
            };
            &&& o.cuts == seq![
                Vertex::Cut { plane, from: p.v[pred(n, i1)], to: p.v[i1] },
                Vertex::Cut { plane, from: p.v[pred(n, i2)], to: p.v[i2] },
            ]
            &&& o.portal == seq![c0, c1]
            &&& o.kind == if run == PointInt::Behind {
                IntersectionView::Split(rest, arc)
            } else {
                IntersectionView::Split(arc, rest)
            }
            &&& p.v == p.v.subrange(0, i1) + p.v.subrange(i1, i2) + p.v.subrange(i2, n)
        }),
{
    let n = p.v.len() as int;
    assert(sides[i1] != PointInt::OnPlane);
    lemma_crossed_walk(p.v, sides, plane, first, i1, i2, run, p.v.len());
    let o = split(p, sides, plane, first);
    assert(o.portal =~= seq![first as VertexId, (first + 1) as VertexId]);
    assert(p.v =~= p.v.subrange(0, i1) + p.v.subrange(i1, i2) + p.v.subrange(i2, n));
}

impl Node {
    /// Clips `polygon` against `plane`, given the side of each of its vertices, and
    /// returns where the polygon lies together with its portal. Each cut is pushed on
    /// `vertices` and is known by its index there.
    pub fn intersect(
        polygon: &Ngon,
        sides: &Vec<PointInt>,
        plane: PlaneTri,
        vertices: &mut Vec<Vertex>,
    ) -> (r: (Intersection, Vec<VertexId>))
        requires
            sides@.len() == polygon.v@.len(),
        ensures
            r.0@ == split(polygon@, sides@, plane, old(vertices)@.len()).kind,
            r.1@ == split(polygon@, sides@, plane, old(vertices)@.len()).portal,
            final(vertices)@ == old(vertices)@ + split(
                polygon@,
                sides@,
                plane,
                old(vertices)@.len(),
            ).cuts,
    {
        let n = polygon.v.len();
        let ghost start = vertices@;
        let ghost first = start.len();
        let mut state = PointInt::OnPlane;
        let mut k: usize = 0;
        while k < n
            invariant
                k <= n,
                n == sides@.len(),
                state == last_side(sides@, k as int),
            decreases n - k,
        {
            if sides[k] != PointInt::OnPlane {
                state = sides[k];
            }
            k += 1;
        }
        proof {
            lemma_last_side_on_plane(sides@, n as int);
        }
        if state == PointInt::OnPlane {
            assert(vertices@ == start + Seq::<Vertex>::empty());
            return (Intersection::OnPlane, copy_ids(&polygon.v));
        }
        let mut front: Vec<VertexId> = Vec::new();
        let mut behind: Vec<VertexId> = Vec::new();
        let mut portal: Vec<VertexId> = Vec::new();
        let mut prev_i: usize = n - 1;
        let mut i: usize = 0;
        while i < n
            invariant
                i <= n,
                0 < n == sides@.len() == polygon.v@.len(),
                first == start.len(),
                last_side(sides@, n as int) != PointInt::OnPlane,
                state == state_before(sides@, i as int),
                state != PointInt::OnPlane,
                prev_i as int == pred(n as int, i as int),
                front@ == walk(polygon.v@, sides@, plane, first, i as nat).front,
                behind@ == walk(polygon.v@, sides@, plane, first, i as nat).behind,
                portal@ == walk(polygon.v@, sides@, plane, first, i as nat).portal,
                vertices@ == start + walk(polygon.v@, sides@, plane, first, i as nat).cuts,
            decreases n - i,
        {
            let ghost before = walk(polygon.v@, sides@, plane, first, i as nat);
            let side = sides[i];
            if side != PointInt::OnPlane {
                if side != state {
                    let id = vertices.len();
                    vertices.push(Vertex::Cut { plane, from: polygon.v[prev_i], to: polygon.v[i] });
                    behind.push(id);
                    front.push(id);
                    portal.push(id);
                    state = side;
                }
            } else {
                portal.push(polygon.v[i]);
            }
            if state == PointInt::Behind {
                behind.push(polygon.v[i]);
            } else {
                front.push(polygon.v[i]);
            }
            prev_i = i;
            i += 1;
            proof {
                let after = walk(polygon.v@, sides@, plane, first, i as nat);
                assert(front@ =~= after.front);
                assert(behind@ =~= after.behind);
                assert(portal@ =~= after.portal);
                assert(vertices@ =~= start + after.cuts);
            }
        }
        if front.len() == 0 {
            (Intersection::Behind, portal)
        } else if behind.len() == 0 {
            (Intersection::InFront, portal)
        } else {
            (
                Intersection::Split(
                    Ngon { v: front, norm: polygon.norm },
                    Ngon { v: behind, norm: polygon.norm },
                ),
                portal,
            )
        }
    }
}

} // verus!
