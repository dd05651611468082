//! Ear clipping: cutting a polygon into triangles, one ear at a time.
use vstd::prelude::*;
use crate::mesh::{NgonView, VertexId};
use crate::tree::Node;

verus! {

/// The two axes onto which a polygon is projected, and the axis that is dropped.
#[derive(Clone, Copy, Debug, PartialEq, Eq, Structural)]
pub struct Projection {
    pub u: usize,
    pub v: usize,
    pub dropped: usize,
}

/// The axis to drop, from how the absolute values of the normal's components
/// compare: x above y, x above z, z above y. It is x where x is above both, z where
/// z is above one of the others and not below x, else y.
pub open spec fn dropped_axis(x_over_y: bool, x_over_z: bool, z_over_y: bool) -> usize {
    if x_over_y {
        if x_over_z {
            0
        } else {
            2
        }
    } else {
        if z_over_y {
            2
        } else {
            1
        }
    }
}

/// The way a path turns at a point: counter-clockwise, not at all, or clockwise.
#[derive(Clone, Copy, Debug, PartialEq, Eq, Structural)]
pub enum Turn {
    Left,
    Straight,
    Right,
}

/// The turn that a cross product stands for: to the left where it is above zero, to
/// the right where it is below zero, else none.
pub open spec fn turn_of(above_zero: bool, below_zero: bool) -> Turn {
    if above_zero {
        Turn::Left
    } else if below_zero {
        Turn::Right
    } else {
        Turn::Straight
    }
}

impl Turn {
    /// Tells a turn from two comparisons of the cross product of an edge with the
    /// line from the edge's start to a point: whether it is above zero, and whether
    /// it is below zero.
    pub fn classify(above_zero: bool, below_zero: bool) -> (r: Turn)
        ensures
            r == turn_of(above_zero, below_zero),
    {
        if above_zero {
            Turn::Left
        } else if below_zero {
            Turn::Right
        } else {
            Turn::Straight
        }
    }
}

/// The turns that a point makes with the three edges of a triangle `a`, `b`, `c`, in
/// the projection: from the edge `a`-`b` to the point, from `b`-`c`, and from `c`-`a`.
/// A point on the line of an edge makes no turn with it.
#[derive(Clone, Copy, Debug, PartialEq, Eq, Structural)]
pub struct EdgeSigns {
    pub ab: Turn,
    pub bc: Turn,
    pub ca: Turn,
}

/// The point lies strictly inside the triangle: it makes the same turn with all three
/// edges, and that turn is not straight. A point on the line of an edge is not
/// inside. (Outside a triangle no point makes the same turn with all three edges.)
pub open spec fn inside(signs: EdgeSigns) -> bool {
    signs.ab == signs.bc && signs.bc == signs.ca && signs.ab != Turn::Straight
}

/// Three vertices in a row are an ear when they turn the way the polygon winds and no
/// other vertex lies strictly inside their triangle.
pub open spec fn is_ear(winding: bool, turn: bool, others: Seq<EdgeSigns>) -> bool {
    &&& turn == winding
    &&& forall|i: int| 0 <= i < others.len() ==> !inside(#[trigger] others[i])
}

impl Node {
    /// Picks the projection for a polygon from how the absolute values of its
    /// normal's components compare. The two axes kept follow the dropped one in the
    /// order x, y, z, x, so that the projection keeps the sense of rotation.
    pub fn projection(x_over_y: bool, x_over_z: bool, z_over_y: bool) -> (r: Projection)
        ensures
            r.dropped == dropped_axis(x_over_y, x_over_z, z_over_y),
            r.u == (r.dropped + 1) % 3,
            r.v == (r.dropped + 2) % 3,
    {
        if x_over_y {
            if x_over_z {
                Projection { u: 1, v: 2, dropped: 0 }
            } else {
                Projection { u: 0, v: 1, dropped: 2 }
            }
        } else {
            if z_over_y {
                Projection { u: 0, v: 1, dropped: 2 }
            } else {
                Projection { u: 2, v: 0, dropped: 1 }
            }
        }
    }

    /// Tells whether a candidate is an ear, given the sense in which the polygon
    /// winds, the sense in which the candidate turns (true for counter-clockwise),
    /// and for each other vertex left the turns it makes with the candidate's edges.
    pub fn check_ear(winding: bool, turn: bool, others: &Vec<EdgeSigns>) -> (r: bool)
        ensures
            r == is_ear(winding, turn, others@),
    {
        if turn != winding {
            return false;
        }
        let mut i: usize = 0;
        while i < others.len()
            invariant
                i <= others.len(),
                forall|j: int| 0 <= j < i ==> !inside(#[trigger] others@[j]),
            decreases others.len() - i,
        {
            let s = others[i];
            if s.ab == s.bc && s.bc == s.ca && s.ab != Turn::Straight {
                return false;
            }
            i += 1;
        }
        true
    }
}

/// The index after `i` on a cycle of `m` vertices.
pub open spec fn next_index(m: int, i: int) -> int {
    if i + 1 >= m {
        0
    } else {
        i + 1
    }
}

/// The index `j` is one of the three of the candidate that starts at `i`.
pub open spec fn in_candidate(m: int, i: int, j: int) -> bool {
    j == i || j == next_index(m, i) || j == next_index(m, next_index(m, i))
}

/// The triangle of three vertices, with a normal.
pub open spec fn triangle(norm: usize, a: VertexId, b: VertexId, c: VertexId) -> NgonView {
    NgonView { v: seq![a, b, c], norm }
}

/// The candidate that starts at `i`: three vertices in a row on the cycle.
pub open spec fn candidate(norm: usize, cycle: Seq<VertexId>, i: int) -> NgonView {
    let m = cycle.len() as int;
    triangle(norm, cycle[i], cycle[next_index(m, i)], cycle[next_index(m, next_index(m, i))])
}

/// The vertices among the first `k` of the cycle that are not of the candidate at `i`.
pub open spec fn others_upto(cycle: Seq<VertexId>, i: int, k: nat) -> Seq<VertexId>
    decreases k,
{
    if k == 0 {
        seq![]
    } else {
        let before = others_upto(cycle, i, (k - 1) as nat);
        if in_candidate(cycle.len() as int, i, k - 1) {
            before
        } else {
            before.push(cycle[k - 1])
        }
    }
}

/// The vertices of the cycle that are not of the candidate at `i`, in their order.
pub open spec fn others(cycle: Seq<VertexId>, i: int) -> Seq<VertexId> {
    others_upto(cycle, i, cycle.len())
}

/// The clipping of one polygon.
pub struct Clipping {
    /// The polygon's normal, which every triangle gets.
    pub norm: usize,
    /// The vertices that are left.
    pub cycle: Seq<VertexId>,
    /// Where the candidate starts that is to be judged next.
    pub cursor: nat,
    /// The triangles cut off so far.
    pub triangles: Seq<NgonView>,
    /// Nothing is left to judge.
    pub done: bool,
}

/// The clipping that has nothing to do.
pub open spec fn idle() -> Clipping {
    Clipping { norm: 0, cycle: seq![], cursor: 0, triangles: seq![], done: true }
}

/// The triangle of the first three vertices of a cycle.
pub open spec fn first_three(norm: usize, cycle: Seq<VertexId>) -> NgonView {
    triangle(norm, cycle[0], cycle[1], cycle[2])
}

/// The clipping of a polygon at its start: a triangle is done at once and is its own
/// only triangle; a larger polygon has its first candidate judged first.
pub open spec fn begin(p: NgonView) -> Clipping {
    if p.v.len() <= 3 {
        Clipping {
            norm: p.norm,
            cycle: p.v,
            cursor: 0,
            triangles: seq![first_three(p.norm, p.v)],
            done: true,
        }
    } else {
        Clipping { norm: p.norm, cycle: p.v, cursor: 0, triangles: seq![], done: false }
    }
}

/// The clipping after the candidate at the cursor has been judged.
///
/// An ear is cut off: it is a triangle of the result, its middle vertex leaves the
/// cycle, and the search starts over at the front; when three vertices are left,
/// they are the last triangle. A candidate that is no ear moves the cursor on; when
/// every candidate of the cycle has been turned down, the first three vertices left
/// are the last triangle.
pub open spec fn judge(c: Clipping, ear: bool) -> Clipping {
    let m = c.cycle.len() as int;
    if c.done {
        c
    } else if ear {
        let cycle = c.cycle.remove(next_index(m, c.cursor as int));
        let triangles = c.triangles.push(candidate(c.norm, c.cycle, c.cursor as int));
        if cycle.len() > 3 {
            Clipping { norm: c.norm, cycle, cursor: 0, triangles, done: false }
        } else {
            Clipping {
                norm: c.norm,
                cycle,
                cursor: 0,
                triangles: triangles.push(first_three(c.norm, cycle)),
                done: true,
            }
        }
    } else if c.cursor + 1 < m {
        Clipping { cursor: c.cursor + 1, ..c }
    } else {
        Clipping { triangles: c.triangles.push(first_three(c.norm, c.cycle)), done: true, ..c }
    }
}

/// The clipping keeps more than three vertices and a cursor on the cycle while it has
/// candidates to judge, and never fewer than three. It came from a polygon of `n`
/// vertices: each ear took one vertex and gave one triangle, and the end gave one
/// more.
pub open spec fn clipping_wf(c: Clipping, n: nat) -> bool {
    &&& 3 <= c.cycle.len() <= n
    &&& !c.done ==> c.cycle.len() > 3 && c.cursor < c.cycle.len()
    &&& c.triangles.len() + c.cycle.len() == n + if c.done {
        1nat
    } else {
        0nat
    }
    &&& forall|k: int|
        0 <= k < c.triangles.len() ==> (#[trigger] c.triangles[k]).v.len() == 3
            && c.triangles[k].norm == c.norm
}

/// The clipping of a polygon is well formed from its start and stays so.
proof fn lemma_clipping_wf(p: NgonView, c: Clipping, ear: bool)
    requires
        p.v.len() >= 3,
    ensures
        clipping_wf(begin(p), p.v.len()),
        begin(p).norm == p.norm,
        forall|n: nat| clipping_wf(c, n) ==> clipping_wf(judge(c, ear), n),
        judge(c, ear).norm == c.norm,
{
}

/// The clipping after these judgements, one after the other.
pub open spec fn judge_all(c: Clipping, ears: Seq<bool>) -> Clipping
    decreases ears.len(),
{
    if ears.len() == 0 {
        c
    } else {
        judge_all(judge(c, ears[0]), ears.skip(1))
    }
}

/// A clipping that is done stays as it is, whatever the judgements.
proof fn lemma_judge_all_done(c: Clipping, ears: Seq<bool>)
    requires
        c.done,
    ensures
        judge_all(c, ears) == c,
    decreases ears.len(),
{
    if ears.len() > 0 {
        lemma_judge_all_done(c, ears.skip(1));
    }
}

/// Whatever the judgements, a clipping stays well formed.
proof fn lemma_judge_all_wf(c: Clipping, n: nat, ears: Seq<bool>)
    requires
        clipping_wf(c, n),
    ensures
        clipping_wf(judge_all(c, ears), n),
        judge_all(c, ears).norm == c.norm,
    decreases ears.len(),
{
    if ears.len() > 0 {
        lemma_clipping_wf(NgonView { v: c.cycle, norm: c.norm }, c, ears[0]);
        lemma_judge_all_wf(judge(c, ears[0]), n, ears.skip(1));
    }
}

/// How many triangles a polygon of `n` vertices gives: whatever the judgements, a
/// clipping that is done holds at least one triangle and at most `n - 2`, each with
/// three vertices and the polygon's normal; it holds `n - 2` exactly when an ear was
/// found until three vertices were left.
pub proof fn lemma_triangle_count(p: NgonView, ears: Seq<bool>)
    requires
        p.v.len() >= 3,
    ensures
        ({
            let c = judge_all(begin(p), ears);
            &&& clipping_wf(c, p.v.len())
            &&& c.norm == p.norm
            &&& c.done ==> 1 <= c.triangles.len() <= p.v.len() - 2
            &&& c.done ==> (c.triangles.len() == p.v.len() - 2 <==> c.cycle.len() == 3)
        }),
{
    lemma_clipping_wf(p, begin(p), true);
    lemma_judge_all_wf(begin(p), p.v.len(), ears);
}

/// The first `k` triangles of the fan of a polygon: each joins the first vertex with
/// two vertices in a row.
pub open spec fn fan(p: NgonView, k: nat) -> Seq<NgonView> {
    Seq::new(k, |j: int| triangle(p.norm, p.v[0], p.v[j + 1], p.v[j + 2]))
}

/// The clipping of a polygon after its first `k` candidates were all ears.
pub open spec fn fanned(p: NgonView, k: nat) -> Clipping {
    if k + 3 < p.v.len() {
        Clipping {
            norm: p.norm,
            cycle: seq![p.v[0]] + p.v.skip(k as int + 1),
            cursor: 0,
            triangles: fan(p, k),
            done: false,
        }
    } else {
        Clipping {
            norm: p.norm,
            cycle: seq![p.v[0]] + p.v.skip(p.v.len() - 2),
            cursor: 0,
            triangles: fan(p, (p.v.len() - 2) as nat),
            done: true,
        }
    }
}

/// One more ear takes a fanned clipping to the next.
proof fn lemma_fan_step(p: NgonView, k: nat)
    requires
        k + 3 < p.v.len(),
    ensures
        judge(fanned(p, k), true) == fanned(p, k + 1),
{
    let n = p.v.len();
    let c = fanned(p, k);
    let d = judge(c, true);
    let e = fanned(p, k + 1);
    let cycle = c.cycle.remove(1);
    assert(cycle =~= seq![p.v[0]] + p.v.skip(k as int + 2));
    assert(c.triangles.push(candidate(c.norm, c.cycle, 0)) =~= fan(p, k + 1));
    if k + 4 < n {
        assert(d.triangles =~= e.triangles);
    } else {
        assert(fan(p, k + 1).push(first_three(c.norm, cycle)) =~= fan(p, (n - 2) as nat));
        assert(d.cycle =~= e.cycle);
    }
}

/// As long as every candidate is an ear, the clipping fans out from the first vertex.
proof fn lemma_fan_run(p: NgonView, k: nat, ears: Seq<bool>)
    requires
        p.v.len() >= 3,
        k + 3 <= p.v.len(),
        ears.len() + k + 3 >= p.v.len(),
        forall|i: int| 0 <= i < p.v.len() - 3 - k ==> ears[i],
    ensures
        judge_all(fanned(p, k), ears) == fanned(p, (p.v.len() - 3) as nat),
    decreases p.v.len() - k,
{
    if k + 3 < p.v.len() {
        lemma_fan_step(p, k);
        assert(ears[0]);
        assert forall|i: int| 0 <= i < p.v.len() - 3 - (k + 1) implies ears.skip(1)[i] by {
            assert(ears.skip(1)[i] == ears[i + 1]);
        }
        lemma_fan_run(p, k + 1, ears.skip(1));
    } else {
        lemma_judge_all_done(fanned(p, k), ears);
    }
}

/// Where every candidate is an ear, as on a convex polygon, a polygon of `n` vertices
/// is cut into the `n - 2` triangles of its fan: the first vertex with the second and
/// third, with the third and fourth, and so on to the last.
pub proof fn lemma_all_ears_fan(p: NgonView, ears: Seq<bool>)
    requires
        p.v.len() >= 3,
        ears.len() + 3 >= p.v.len(),
        forall|i: int| 0 <= i < p.v.len() - 3 ==> ears[i],
    ensures
        judge_all(begin(p), ears).done,
        judge_all(begin(p), ears).triangles == fan(p, (p.v.len() - 2) as nat),
        judge_all(begin(p), ears).triangles.len() == p.v.len() - 2,
{
    assert(begin(p).triangles =~= fanned(p, 0).triangles);
    assert(begin(p).cycle =~= fanned(p, 0).cycle);
    lemma_fan_run(p, 0, ears);
}

/// Every vertex of every triangle is one of these vertices.
pub open spec fn triangles_among(triangles: Seq<NgonView>, vertices: Seq<VertexId>) -> bool {
    forall|k: int, i: int|
        0 <= k < triangles.len() && 0 <= i < triangles[k].v.len() ==> vertices.contains(
            #[trigger] triangles[k].v[i],
        )
}

/// Every vertex left on the cycle and every vertex of a triangle cut off is a vertex
/// of the polygon.
pub open spec fn clipping_among(c: Clipping, vertices: Seq<VertexId>) -> bool {
    &&& forall|i: int| 0 <= i < c.cycle.len() ==> vertices.contains(#[trigger] c.cycle[i])
    &&& triangles_among(c.triangles, vertices)
}

/// One judgement makes no vertex: a clipping among the vertices of a polygon stays
/// among them.
proof fn lemma_judge_among(c: Clipping, n: nat, ear: bool, vertices: Seq<VertexId>)
    requires
        clipping_wf(c, n),
        clipping_among(c, vertices),
    ensures
        clipping_among(judge(c, ear), vertices),
{
    let d = judge(c, ear);
    let m = c.cycle.len() as int;
    if !c.done {
        let j = next_index(m, c.cursor as int);
        let k = next_index(m, j);
        assert(vertices.contains(c.cycle[c.cursor as int]));
        assert(vertices.contains(c.cycle[j]));
        assert(vertices.contains(c.cycle[k]));
        assert(vertices.contains(c.cycle[0]));
        assert(vertices.contains(c.cycle[1]));
        assert(vertices.contains(c.cycle[2]));
        assert(vertices.contains(c.cycle[3]));
        assert forall|i: int| 0 <= i < d.cycle.len() implies vertices.contains(
            #[trigger] d.cycle[i],
        ) by {
            if ear {
                if i < j {
                    assert(d.cycle[i] == c.cycle[i]);
                } else {
                    assert(d.cycle[i] == c.cycle[i + 1]);
                }
            }
        }
        assert forall|t: int, i: int|
            0 <= t < d.triangles.len() && 0 <= i < d.triangles[t].v.len() implies vertices.contains(
            #[trigger] d.triangles[t].v[i],
        ) by {
            if t < c.triangles.len() {
                assert(d.triangles[t] == c.triangles[t]);
            }
        }
    }
}

/// Ear clipping makes no vertex: whatever the judgements, every triangle is made of
/// vertices of the polygon.
pub proof fn lemma_triangles_among(p: NgonView, ears: Seq<bool>)
    requires
        p.v.len() >= 3,
    ensures
        triangles_among(judge_all(begin(p), ears).triangles, p.v),
{
    lemma_clipping_wf(p, begin(p), true);
    assert(clipping_among(begin(p), p.v)) by {
        assert(p.v.contains(p.v[0]));
        assert(p.v.contains(p.v[1]));
        assert(p.v.contains(p.v[2]));
        assert forall|i: int| 0 <= i < p.v.len() implies p.v.contains(#[trigger] p.v[i]) by {}
    }
    lemma_judge_all_among(begin(p), p.v.len(), ears, p.v);
}

/// Whatever the judgements, a clipping among the vertices of a polygon stays among
/// them.
proof fn lemma_judge_all_among(c: Clipping, n: nat, ears: Seq<bool>, vertices: Seq<VertexId>)
    requires
        clipping_wf(c, n),
        clipping_among(c, vertices),
    ensures
        clipping_among(judge_all(c, ears), vertices),
    decreases ears.len(),
{
    if ears.len() > 0 {
        lemma_clipping_wf(NgonView { v: c.cycle, norm: c.norm }, c, ears[0]);
        lemma_judge_among(c, n, ears[0], vertices);
        lemma_judge_all_among(judge(c, ears[0]), n, ears.skip(1), vertices);
    }
}

} // verus!
