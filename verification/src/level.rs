//! One level of the partition: a list of polygons held against the plane of its first.
use vstd::prelude::*;
use crate::mesh::{
    arena_wf, id_lists, ngon_wf, ngons_wf, views, Ngon, NgonView, PlaneTri, Vertex, VertexId,
};
use crate::split::{
    lemma_one_sided, lemma_split_parts, lemma_split_wf, one_sided, split, Intersection,
    IntersectionView, PointInt,
};
use crate::tree::{leaf_wf, lemma_ngons_wf_grow, portals_wf, LeafNode, LeafView, Node};

verus! {

/// The values of the sides reported for one level.
pub open spec fn side_lists(sides: Seq<Vec<PointInt>>) -> Seq<Seq<PointInt>> {
    sides.map_values(|s: Vec<PointInt>| s@)
}

/// The plane of a polygon: the one through its first three vertices.
pub open spec fn plane_of(p: NgonView) -> PlaneTri {
    PlaneTri { a: p.v[0], b: p.v[1], c: p.v[2] }
}

/// The sides fit the polygons: one list for each polygon after the first, with one
/// side for each of its vertices.
pub open spec fn fits(polygons: Seq<NgonView>, sides: Seq<Seq<PointInt>>) -> bool {
    &&& sides.len() + 1 == polygons.len()
    &&& forall|k: int|
        0 <= k < sides.len() ==> (#[trigger] sides[k]).len() == polygons[k + 1].v.len()
}

/// What one level comes to.
pub struct Level {
    /// The polygons in the plane, the first one leading, and the portals of the others.
    pub leaf: LeafView,
    /// The polygons and parts in front of the plane.
    pub front: Seq<NgonView>,
    /// The polygons and parts behind the plane.
    pub behind: Seq<NgonView>,
    /// The vertices that the level adds to the arena.
    pub cuts: Seq<Vertex>,
}

/// The level after the first polygon and the `k` that follow it, with an arena that
/// held `first` vertices before.
///
/// The first polygon lies in its own plane. Each later one is clipped against that
/// plane: one in the plane joins the leaf's contents; any other leaves its portal with
/// the leaf and goes in front, behind, or with its front part in front and its behind
/// part behind.
pub open spec fn level_upto(
    polygons: Seq<NgonView>,
    sides: Seq<Seq<PointInt>>,
    first: nat,
    k: nat,
) -> Level
    decreases k,
{
    if k == 0 {
        Level {
            leaf: LeafView { contents: seq![polygons[0]], portals: seq![] },
            front: seq![],
            behind: seq![],
            cuts: seq![],
        }
    } else {
        let l = level_upto(polygons, sides, first, (k - 1) as nat);
        let p = polygons[k as int];
        let o = split(p, sides[k - 1], plane_of(polygons[0]), first + l.cuts.len());
        let portals = l.leaf.portals.push(o.portal);
        match o.kind {
            IntersectionView::OnPlane => Level {
                leaf: LeafView { contents: l.leaf.contents.push(p), portals: l.leaf.portals },
                front: l.front,
                behind: l.behind,
                cuts: l.cuts,
            },
            IntersectionView::InFront => Level {
                leaf: LeafView { contents: l.leaf.contents, portals },
                front: l.front.push(p),
                behind: l.behind,
                cuts: l.cuts + o.cuts,
            },
            IntersectionView::Behind => Level {
                leaf: LeafView { contents: l.leaf.contents, portals },
                front: l.front,
                behind: l.behind.push(p),
                cuts: l.cuts + o.cuts,
            },
            IntersectionView::Split(front, behind) => Level {
                leaf: LeafView { contents: l.leaf.contents, portals },
                front: l.front.push(front),
                behind: l.behind.push(behind),
                cuts: l.cuts + o.cuts,
            },
        }
    }
}

/// The level that a non-empty list of polygons comes to.
pub open spec fn level(polygons: Seq<NgonView>, sides: Seq<Seq<PointInt>>, first: nat) -> Level {
    level_upto(polygons, sides, first, (polygons.len() - 1) as nat)
}

/// Sizes of a level: each later polygon adds at most one polygon to each side and at
/// most one to the leaf, and the arena only grows.
pub proof fn lemma_level_sizes(polygons: Seq<NgonView>, sides: Seq<Seq<PointInt>>, first: nat, k: nat)
    requires
        fits(polygons, sides),
        k < polygons.len(),
    ensures
        ({
            let l = level_upto(polygons, sides, first, k);
            &&& l.front.len() <= k
            &&& l.behind.len() <= k
            &&& 1 <= l.leaf.contents.len() <= k + 1
            &&& l.leaf.portals.len() + l.leaf.contents.len() == k + 1
            &&& l.leaf.contents[0] == polygons[0]
            &&& forall|j: nat|
                j <= k ==> (#[trigger] level_upto(polygons, sides, first, j)).cuts.len()
                    <= l.cuts.len()
        }),
    decreases k,
{
    if k > 0 {
        lemma_level_sizes(polygons, sides, first, (k - 1) as nat);
    }
}

/// A level of well-formed polygons is well formed in the arena it has grown.
pub proof fn lemma_level_wf(
    polygons: Seq<NgonView>,
    sides: Seq<Seq<PointInt>>,
    vertices: Seq<Vertex>,
    k: nat,
)
    requires
        fits(polygons, sides),
        k < polygons.len(),
        arena_wf(vertices),
        ngons_wf(polygons, vertices.len()),
        vertices.len() + level_upto(polygons, sides, vertices.len(), k).cuts.len() <= usize::MAX,
    ensures
        ({
            let l = level_upto(polygons, sides, vertices.len(), k);
            let bound = vertices.len() + l.cuts.len();
            &&& arena_wf(vertices + l.cuts)
            &&& leaf_wf(l.leaf, bound)
            &&& ngons_wf(l.front, bound)
            &&& ngons_wf(l.behind, bound)
        }),
    decreases k,
{
    let first = vertices.len();
    let l = level_upto(polygons, sides, first, k);
    let bound = first + l.cuts.len();
    assert(ngon_wf(polygons[0], first));
    if k == 0 {
        assert(vertices + l.cuts =~= vertices);
    } else {
        let m = level_upto(polygons, sides, first, (k - 1) as nat);
        lemma_level_sizes(polygons, sides, first, k);
        lemma_level_wf(polygons, sides, vertices, (k - 1) as nat);
        let p = polygons[k as int];
        assert(ngon_wf(p, first));
        let grown = vertices + m.cuts;
        let o = split(p, sides[k - 1], plane_of(polygons[0]), grown.len());
        assert(l.cuts.len() == m.cuts.len() + o.cuts.len()) by {
            if o.kind is OnPlane {
                assert(o.cuts.len() == 0);
            }
        }
        lemma_split_wf(p, sides[k - 1], plane_of(polygons[0]), grown);
        lemma_split_parts(p, sides[k - 1], plane_of(polygons[0]), grown.len());
        assert(vertices + l.cuts =~= grown + o.cuts) by {
            if o.kind is OnPlane {
                assert(o.cuts =~= Seq::<Vertex>::empty());
            }
        }
        lemma_ngons_wf_grow(m.front, grown.len(), bound);
        lemma_ngons_wf_grow(m.behind, grown.len(), bound);
        lemma_ngons_wf_grow(m.leaf.contents, grown.len(), bound);
        lemma_ngons_wf_grow(seq![p], first, bound);
        assert(ngon_wf(seq![p][0], bound));
        assert(portals_wf(l.leaf.portals, bound)) by {
            assert(portals_wf(m.leaf.portals, grown.len()));
        }
    }
}

/// Every polygon held against the plane keeps to one side of it.
pub open spec fn all_one_sided(sides: Seq<Seq<PointInt>>) -> bool {
    forall|k: int| 0 <= k < sides.len() ==> one_sided(#[trigger] sides[k])
}

/// A level at which every polygon keeps to one side of the plane: nothing is cut,
/// the leaf holds the first polygon alone, and the others, each once and as it was,
/// are shared out between front and behind.
pub proof fn lemma_level_unsplit(
    polygons: Seq<NgonView>,
    sides: Seq<Seq<PointInt>>,
    first: nat,
    k: nat,
)
    requires
        fits(polygons, sides),
        k < polygons.len(),
        all_one_sided(sides),
    ensures
        ({
            let l = level_upto(polygons, sides, first, k);
            &&& l.cuts.len() == 0
            &&& l.leaf.contents == seq![polygons[0]]
            &&& l.front.len() + l.behind.len() == k
            &&& l.front.to_multiset().add(l.behind.to_multiset()) == polygons.subrange(
                1,
                k as int + 1,
            ).to_multiset()
        }),
    decreases k,
{
    broadcast use vstd::seq_lib::to_multiset_build;
    broadcast use vstd::multiset::group_multiset_axioms;

    let l = level_upto(polygons, sides, first, k);
    if k == 0 {
        let none = Seq::<NgonView>::empty();
        assert(polygons.subrange(1, 1) =~= none);
        assert(l.front =~= none && l.behind =~= none);
        vstd::seq_lib::to_multiset_len(none);
        vstd::multiset::lemma_multiset_empty_len(none.to_multiset());
        assert(l.front.to_multiset().add(l.behind.to_multiset()) =~= polygons.subrange(
            1,
            1,
        ).to_multiset());
    } else {
        let m = level_upto(polygons, sides, first, (k - 1) as nat);
        let p = polygons[k as int];
        lemma_level_unsplit(polygons, sides, first, (k - 1) as nat);
        assert(one_sided(sides[k - 1]));
        lemma_one_sided(p, sides[k - 1], plane_of(polygons[0]), first + m.cuts.len());
        assert(polygons.subrange(1, k as int + 1) =~= polygons.subrange(1, k as int).push(p));
        assert(l.cuts =~= m.cuts);
        assert(l.front.to_multiset().add(l.behind.to_multiset()) =~= m.front.to_multiset().add(
            m.behind.to_multiset(),
        ).insert(p));
    }
}

/// Tells whether the sides reported fit the polygons of a level.
pub fn sides_fit(polygons: &Vec<Ngon>, sides: &Vec<Vec<PointInt>>) -> (r: bool)
    ensures
        r == fits(views(polygons@), side_lists(sides@)),
{
    if polygons.len() == 0 || sides.len() != polygons.len() - 1 {
        return false;
    }
    let mut k: usize = 0;
    while k < sides.len()
        invariant
            k <= sides.len(),
            sides.len() + 1 == polygons.len(),
            forall|j: int|
                0 <= j < k ==> (#[trigger] side_lists(sides@)[j]).len() == views(polygons@)[j
                    + 1].v.len(),
        decreases sides.len() - k,
    {
        if sides[k].len() != polygons[k + 1].v.len() {
            assert(side_lists(sides@)[k as int].len() != views(polygons@)[k + 1].v.len());
            return false;
        }
        k += 1;
    }
    true
}

impl Node {
    /// Holds a non-empty list of polygons against the plane of its first polygon, given
    /// the side of every vertex of the others. Returns the leaf of the level, the
    /// polygons in front and those behind; the cuts are pushed on `vertices`.
    pub fn partition(
        polygons: &Vec<Ngon>,
        sides: &Vec<Vec<PointInt>>,
        vertices: &mut Vec<Vertex>,
    ) -> (r: (LeafNode, Vec<Ngon>, Vec<Ngon>))
        requires
            fits(views(polygons@), side_lists(sides@)),
            polygons@[0].v@.len() >= 3,
        ensures
            r.0@ == level(views(polygons@), side_lists(sides@), old(vertices)@.len()).leaf,
            views(r.1@) == level(views(polygons@), side_lists(sides@), old(vertices)@.len()).front,
            views(r.2@) == level(
                views(polygons@),
                side_lists(sides@),
                old(vertices)@.len(),
            ).behind,
            final(vertices)@ == old(vertices)@ + level(
                views(polygons@),
                side_lists(sides@),
                old(vertices)@.len(),
            ).cuts,
    {
        let ghost ps = views(polygons@);
        let ghost ss = side_lists(sides@);
        let ghost start = vertices@;
        let ghost first = start.len();
        let reference = &polygons[0];
        let plane = PlaneTri { a: reference.v[0], b: reference.v[1], c: reference.v[2] };
        assert(plane == plane_of(ps[0]));
        let mut contents: Vec<Ngon> = Vec::new();
        contents.push(reference.clone());
        let mut portals: Vec<Vec<VertexId>> = Vec::new();
        let mut in_front: Vec<Ngon> = Vec::new();
        let mut behind: Vec<Ngon> = Vec::new();
        assert(views(contents@) =~= seq![ps[0]]);
        assert(id_lists(portals@) =~= Seq::<Seq<VertexId>>::empty());
        assert(views(in_front@) =~= Seq::<NgonView>::empty());
        assert(views(behind@) =~= Seq::<NgonView>::empty());
        assert(vertices@ =~= start + Seq::<Vertex>::empty());
        let mut k: usize = 0;
        while k < sides.len()
            invariant
                k <= sides.len(),
                ps == views(polygons@),
                ss == side_lists(sides@),
                fits(ps, ss),
                first == start.len(),
                plane == plane_of(ps[0]),
                views(contents@) == level_upto(ps, ss, first, k as nat).leaf.contents,
                id_lists(portals@) == level_upto(ps, ss, first, k as nat).leaf.portals,
                views(in_front@) == level_upto(ps, ss, first, k as nat).front,
                views(behind@) == level_upto(ps, ss, first, k as nat).behind,
                vertices@ == start + level_upto(ps, ss, first, k as nat).cuts,
            decreases sides.len() - k,
        {
            let ghost before = level_upto(ps, ss, first, k as nat);
            let ghost after = level_upto(ps, ss, first, (k + 1) as nat);
            let polygon = &polygons[k + 1];
            assert(polygon@ == ps[k + 1]);
            assert(sides@[k as int]@ == ss[k as int]);
            let ghost o = split(polygon@, ss[k as int], plane, vertices@.len());
            assert(vertices@.len() == first + before.cuts.len());
            let (kind, portal) = Node::intersect(polygon, &sides[k], plane, vertices);
            match kind {
                Intersection::OnPlane => {
                    contents.push(polygon.clone());
                    assert(o.cuts =~= Seq::<Vertex>::empty());
                    assert(vertices@ =~= start + after.cuts);
                },
                Intersection::InFront => {
                    portals.push(portal);
                    in_front.push(polygon.clone());
                    assert(vertices@ =~= start + after.cuts);
                },
                Intersection::Behind => {
                    portals.push(portal);
                    behind.push(polygon.clone());
                    assert(vertices@ =~= start + after.cuts);
                },
                Intersection::Split(front_part, behind_part) => {
                    portals.push(portal);
                    in_front.push(front_part);
                    behind.push(behind_part);
                    assert(vertices@ =~= start + after.cuts);
                },
            }
            k += 1;
            assert(views(contents@) =~= after.leaf.contents);
            assert(id_lists(portals@) =~= after.leaf.portals);
            assert(views(in_front@) =~= after.front);
            assert(views(behind@) =~= after.behind);
        }
        (LeafNode { contents, portals }, in_front, behind)
    }
}

} // verus!
