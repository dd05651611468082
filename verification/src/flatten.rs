//! Flattening the tree into triangles.
//!
//! The leaves are visited depth first, child 0 before child 1, and each polygon found
//! is cut into triangles by ear clipping. Whether three vertices in a row are an ear
//! is not for the library to tell: the flattener names the candidate, takes the
//! judgement, and goes on.
use vstd::prelude::*;
use crate::mesh::{copy_ids, copy_ngons, ngon_wf, views, Ngon, NgonView, VertexId};
use crate::tree::{tree_of, tree_wf, LeafView, Node, Tree};
use crate::triangulate::{
    begin, candidate, idle, judge, judge_all, lemma_triangle_count, lemma_triangles_among,
    next_index, others, others_upto, triangle, Clipping,
};

verus! {

/// The polygons of the leaves, in the order in which a depth-first walk finds them:
/// all of child 0 before all of child 1.
pub open spec fn leaf_polygons(tree: Tree) -> Seq<NgonView>
    decreases tree,
{
    match tree {
        Tree::Absent => seq![],
        Tree::Leaf(leaf) => leaf.contents,
        Tree::Split(a, b) => leaf_polygons(*a) + leaf_polygons(*b),
    }
}

/// The walk takes child 0 before child 1. So where a level has polygons behind it,
/// those come first, then the polygons in the level's plane, then those in front;
/// and where it has none behind, the polygons in the plane come before those in
/// front.
pub proof fn lemma_visit_order(leaf: LeafView, front: Tree, behind: Tree)
    ensures
        leaf_polygons(Tree::Split(Box::new(Tree::Leaf(leaf)), Box::new(front))) == leaf.contents
            + leaf_polygons(front),
        leaf_polygons(
            Tree::Split(
                Box::new(behind),
                Box::new(Tree::Split(Box::new(Tree::Leaf(leaf)), Box::new(front))),
            ),
        ) == leaf_polygons(behind) + (leaf.contents + leaf_polygons(front)),
{
    reveal_with_fuel(leaf_polygons, 3);
}

/// The state of a flattening.
pub struct Flattening {
    /// The polygons not begun yet.
    pub rest: Seq<NgonView>,
    /// The clipping of the polygon at hand; idle when all is done.
    pub clip: Clipping,
    /// The triangles of the polygons that are done.
    pub out: Seq<NgonView>,
}

/// Begins the polygons of `rest` one after the other until one has a candidate to
/// judge. A triangle needs no judgement and goes to the result as it is.
pub open spec fn proceed(rest: Seq<NgonView>, out: Seq<NgonView>) -> Flattening
    decreases rest.len(),
{
    if rest.len() == 0 {
        Flattening { rest, clip: idle(), out }
    } else {
        let c = begin(rest[0]);
        if c.done {
            proceed(rest.skip(1), out + c.triangles)
        } else {
            Flattening { rest: rest.skip(1), clip: c, out }
        }
    }
}

/// The flattening of a list of polygons at its start.
pub open spec fn flattening(polygons: Seq<NgonView>) -> Flattening {
    proceed(polygons, seq![])
}

/// The flattening after the candidate at hand has been judged. When that ends the
/// polygon at hand, its triangles join the result and the next polygons are begun.
pub open spec fn tell(f: Flattening, ear: bool) -> Flattening {
    if f.clip.done {
        f
    } else {
        let c = judge(f.clip, ear);
        if c.done {
            proceed(f.rest, f.out + c.triangles)
        } else {
            Flattening { clip: c, ..f }
        }
    }
}

/// The flattening after these judgements, one after the other.
pub open spec fn tell_all(f: Flattening, ears: Seq<bool>) -> Flattening
    decreases ears.len(),
{
    if ears.len() == 0 {
        f
    } else {
        tell_all(tell(f, ears[0]), ears.skip(1))
    }
}

/// The triangles that a clipping ends with, and the number of judgements it takes
/// from `ears` to get there; nothing if the judgements run out before.
pub open spec fn clipped(c: Clipping, ears: Seq<bool>) -> Option<(Seq<NgonView>, nat)>
    decreases ears.len(),
{
    if c.done {
        Some((c.triangles, 0nat))
    } else if ears.len() == 0 {
        None
    } else {
        match clipped(judge(c, ears[0]), ears.skip(1)) {
            None => None,
            Some((triangles, used)) => Some((triangles, used + 1)),
        }
    }
}

/// The triangles of a list of polygons: those of the first polygon, clipped with as
/// many of the judgements as it takes, then those of the others, clipped with the
/// judgements that follow. Nothing if the judgements run out.
pub open spec fn flattened(polygons: Seq<NgonView>, ears: Seq<bool>) -> Option<Seq<NgonView>>
    decreases polygons.len(),
{
    if polygons.len() == 0 {
        Some(seq![])
    } else {
        match clipped(begin(polygons[0]), ears) {
            None => None,
            Some((triangles, used)) => match flattened(polygons.skip(1), ears.skip(used as int)) {
                None => None,
                Some(more) => Some(triangles + more),
            },
        }
    }
}

/// A flattening that is done stays as it is, whatever it is told.
proof fn lemma_tell_done(f: Flattening, ears: Seq<bool>)
    requires
        f.clip.done,
    ensures
        tell_all(f, ears) == f,
    decreases ears.len(),
{
    if ears.len() > 0 {
        lemma_tell_done(f, ears.skip(1));
    }
}

/// Judging the polygon at hand to its end leaves the flattening where the next
/// polygons are begun, with the triangles of this one in the result.
proof fn lemma_tell_clipped(
    rest: Seq<NgonView>,
    c: Clipping,
    out: Seq<NgonView>,
    ears: Seq<bool>,
)
    requires
        !c.done,
        clipped(c, ears) is Some,
    ensures
        clipped(c, ears).unwrap().1 <= ears.len(),
        tell_all(Flattening { rest, clip: c, out }, ears) == tell_all(
            proceed(rest, out + clipped(c, ears).unwrap().0),
            ears.skip(clipped(c, ears).unwrap().1 as int),
        ),
    decreases ears.len(),
{
    let next = judge(c, ears[0]);
    let f = Flattening { rest, clip: c, out };
    assert(tell_all(f, ears) == tell_all(tell(f, ears[0]), ears.skip(1)));
    if next.done {
        assert(ears.skip(1) =~= ears.skip(1).skip(0));
    } else {
        lemma_tell_clipped(rest, next, out, ears.skip(1));
        let used = clipped(next, ears.skip(1)).unwrap().1;
        assert(ears.skip(1).skip(used as int) =~= ears.skip((used + 1) as int));
    }
}

/// Told judgements enough, a flattening that has `out` and is to begin `polygons`
/// ends with `out` and the triangles of `polygons`.
proof fn lemma_tell_flattened(polygons: Seq<NgonView>, out: Seq<NgonView>, ears: Seq<bool>)
    requires
        flattened(polygons, ears) is Some,
    ensures
        tell_all(proceed(polygons, out), ears) == (Flattening {
            rest: seq![],
            clip: idle(),
            out: out + flattened(polygons, ears).unwrap(),
        }),
    decreases polygons.len(),
{
    if polygons.len() == 0 {
        assert(out + Seq::<NgonView>::empty() =~= out);
        assert(polygons =~= Seq::<NgonView>::empty());
        lemma_tell_done(proceed(polygons, out), ears);
    } else {
        let c = begin(polygons[0]);
        let (triangles, used) = clipped(c, ears).unwrap();
        let more = flattened(polygons.skip(1), ears.skip(used as int)).unwrap();
        assert(out + (triangles + more) =~= (out + triangles) + more);
        if c.done {
            assert(ears.skip(0) =~= ears);
            lemma_tell_flattened(polygons.skip(1), out + triangles, ears);
        } else {
            lemma_tell_clipped(polygons.skip(1), c, out, ears);
            lemma_tell_flattened(polygons.skip(1), out + triangles, ears.skip(used as int));
        }
    }
}

/// Flattening yields what the definition says: told judgements that are enough to
/// clip every polygon in turn, the flattening ends with the triangles of the first
/// polygon, then those of the second, and so on.
pub proof fn lemma_flattening_flattens(polygons: Seq<NgonView>, ears: Seq<bool>)
    requires
        flattened(polygons, ears) is Some,
    ensures
        tell_all(flattening(polygons), ears) == (Flattening {
            rest: seq![],
            clip: idle(),
            out: flattened(polygons, ears).unwrap(),
        }),
{
    lemma_tell_flattened(polygons, seq![], ears);
    assert(Seq::<NgonView>::empty() + flattened(polygons, ears).unwrap() =~= flattened(
        polygons,
        ears,
    ).unwrap());
}

/// Nothing to flatten, nothing flattened: without polygons the flattening is done
/// from the start and holds no triangle.
pub proof fn lemma_nothing_flattens_to_nothing()
    ensures
        leaf_polygons(Tree::Absent) == Seq::<NgonView>::empty(),
        flattening(seq![]) == (Flattening { rest: seq![], clip: idle(), out: seq![] }),
{
}

/// Telling one judgement more is telling it last.
proof fn lemma_tell_all_last(f: Flattening, ears: Seq<bool>, i: int)
    requires
        0 <= i < ears.len(),
    ensures
        tell_all(f, ears.take(i + 1)) == tell(tell_all(f, ears.take(i)), ears[i]),
    decreases i,
{
    let more = ears.take(i + 1);
    if i == 0 {
        assert(more.skip(1) =~= Seq::<bool>::empty());
        assert(tell_all(tell(f, more[0]), more.skip(1)) == tell(f, more[0]));
        assert(ears.take(0) =~= Seq::<bool>::empty());
    } else {
        let g = tell(f, ears[0]);
        lemma_tell_all_last(g, ears.skip(1), i - 1);
        assert(more.skip(1) =~= ears.skip(1).take(i));
        assert(ears.take(i).skip(1) =~= ears.skip(1).take(i - 1));
        assert(more[0] == ears[0]);
        assert(ears.take(i)[0] == ears[0]);
    }
}

/// Judgements that run out before the polygon at hand is done leave the flattening
/// with a candidate to judge.
proof fn lemma_tell_unclipped(
    rest: Seq<NgonView>,
    c: Clipping,
    out: Seq<NgonView>,
    ears: Seq<bool>,
)
    requires
        clipped(c, ears) is None,
    ensures
        !tell_all(Flattening { rest, clip: c, out }, ears).clip.done,
    decreases ears.len(),
{
    if ears.len() > 0 {
        lemma_tell_unclipped(rest, judge(c, ears[0]), out, ears.skip(1));
    }
}

/// Judgements that run out before every polygon is done leave the flattening with a
/// candidate to judge.
proof fn lemma_tell_unflattened(polygons: Seq<NgonView>, out: Seq<NgonView>, ears: Seq<bool>)
    requires
        flattened(polygons, ears) is None,
    ensures
        !tell_all(proceed(polygons, out), ears).clip.done,
    decreases polygons.len(),
{
    let c = begin(polygons[0]);
    match clipped(c, ears) {
        None => {
            lemma_tell_unclipped(polygons.skip(1), c, out, ears);
        },
        Some((triangles, used)) => {
            if c.done {
                assert(ears.skip(0) =~= ears);
            } else {
                lemma_tell_clipped(polygons.skip(1), c, out, ears);
            }
            lemma_tell_unflattened(polygons.skip(1), out + triangles, ears.skip(used as int));
        },
    }
}

/// Every polygon has at least three vertices.
pub open spec fn all_polygons(polygons: Seq<NgonView>) -> bool {
    forall|k: int| 0 <= k < polygons.len() ==> (#[trigger] polygons[k]).v.len() >= 3
}

/// Every triangle has three vertices.
pub open spec fn all_triangles(triangles: Seq<NgonView>) -> bool {
    forall|k: int| 0 <= k < triangles.len() ==> (#[trigger] triangles[k]).v.len() == 3
}

/// The flattening has a candidate to judge.
pub open spec fn judging(f: Flattening) -> bool {
    !f.clip.done
}

/// The flattening is in order: what waits are polygons, what is found are triangles,
/// and the clipping at hand has a candidate on its cycle or is idle with nothing left
/// to begin.
pub open spec fn flattening_wf(f: Flattening) -> bool {
    &&& all_polygons(f.rest)
    &&& all_triangles(f.out)
    &&& all_triangles(f.clip.triangles)
    &&& if f.clip.done {
        f.clip == idle() && f.rest.len() == 0
    } else {
        f.clip.cycle.len() > 3 && f.clip.cursor < f.clip.cycle.len()
    }
}

/// Beginning polygons keeps a flattening in order.
proof fn lemma_proceed_wf(rest: Seq<NgonView>, out: Seq<NgonView>)
    requires
        all_polygons(rest),
        all_triangles(out),
    ensures
        flattening_wf(proceed(rest, out)),
    decreases rest.len(),
{
    if rest.len() > 0 {
        let c = begin(rest[0]);
        assert(rest[0].v.len() >= 3);
        assert forall|k: int| 0 <= k < rest.skip(1).len() implies (#[trigger] rest.skip(
            1,
        )[k]).v.len() >= 3 by {
            assert(rest.skip(1)[k] == rest[k + 1]);
        }
        if c.done {
            lemma_proceed_wf(rest.skip(1), out + c.triangles);
        }
    }
}

/// Judging a candidate keeps a flattening in order.
proof fn lemma_tell_wf(f: Flattening, ear: bool)
    requires
        flattening_wf(f),
    ensures
        flattening_wf(tell(f, ear)),
{
    if !f.clip.done {
        let c = judge(f.clip, ear);
        if c.done {
            lemma_proceed_wf(f.rest, f.out + c.triangles);
        }
    }
}

/// Every polygon names vertices of an arena of `bound` vertices only.
pub open spec fn ngons_within(polygons: Seq<NgonView>, bound: nat) -> bool {
    forall|k: int, i: int|
        0 <= k < polygons.len() && 0 <= i < polygons[k].v.len() ==> (#[trigger] polygons[k].v[i])
            < bound
}

/// The leaves of a well-formed tree hold polygons, all of them within the arena.
pub proof fn lemma_tree_polygons(tree: Tree, bound: nat)
    requires
        tree_wf(tree, bound),
    ensures
        all_polygons(leaf_polygons(tree)),
        ngons_within(leaf_polygons(tree), bound),
    decreases tree,
{
    match tree {
        Tree::Absent => {},
        Tree::Leaf(leaf) => {
            assert forall|k: int| 0 <= k < leaf.contents.len() implies (#[trigger] leaf.contents[k]).v.len()
                >= 3 by {
                assert(ngon_wf(leaf.contents[k], bound));
            }
            assert forall|k: int, i: int|
                0 <= k < leaf.contents.len() && 0 <= i < leaf.contents[k].v.len() implies (
            #[trigger] leaf.contents[k].v[i]) < bound by {
                assert(ngon_wf(leaf.contents[k], bound));
            }
        },
        Tree::Split(a, b) => {
            lemma_tree_polygons(*a, bound);
            lemma_tree_polygons(*b, bound);
        },
    }
}

/// What a clipping ends with is what judging it that far comes to.
proof fn lemma_clipped_is_judged(c: Clipping, ears: Seq<bool>)
    requires
        clipped(c, ears) is Some,
    ensures
        clipped(c, ears).unwrap().1 <= ears.len(),
        judge_all(c, ears.take(clipped(c, ears).unwrap().1 as int)).done,
        judge_all(c, ears.take(clipped(c, ears).unwrap().1 as int)).triangles == clipped(
            c,
            ears,
        ).unwrap().0,
    decreases ears.len(),
{
    if !c.done {
        let used = clipped(c, ears).unwrap().1;
        lemma_clipped_is_judged(judge(c, ears[0]), ears.skip(1));
        assert(ears.take(used as int).skip(1) =~= ears.skip(1).take(used - 1));
    } else {
        assert(ears.take(0).len() == 0);
    }
}

/// Flattening makes no vertex and keeps to triangles: told judgements enough,
/// polygons within an arena are cut into triangles within that arena.
pub proof fn lemma_flattened_within(polygons: Seq<NgonView>, ears: Seq<bool>, bound: nat)
    requires
        all_polygons(polygons),
        ngons_within(polygons, bound),
        flattened(polygons, ears) is Some,
    ensures
        all_triangles(flattened(polygons, ears).unwrap()),
        ngons_within(flattened(polygons, ears).unwrap(), bound),
    decreases polygons.len(),
{
    if polygons.len() > 0 {
        let p = polygons[0];
        let (triangles, used) = clipped(begin(p), ears).unwrap();
        let more = flattened(polygons.skip(1), ears.skip(used as int)).unwrap();
        let all = flattened(polygons, ears).unwrap();
        assert(p.v.len() >= 3);
        lemma_clipped_is_judged(begin(p), ears);
        lemma_triangle_count(p, ears.take(used as int));
        lemma_triangles_among(p, ears.take(used as int));
        assert forall|k: int| 0 <= k < polygons.skip(1).len() implies (#[trigger] polygons.skip(
            1,
        )[k]).v.len() >= 3 by {
            assert(polygons.skip(1)[k] == polygons[k + 1]);
        }
        assert forall|k: int, i: int|
            0 <= k < polygons.skip(1).len() && 0 <= i < polygons.skip(1)[k].v.len() implies (
        #[trigger] polygons.skip(1)[k].v[i]) < bound by {
            assert(polygons.skip(1)[k] == polygons[k + 1]);
            assert(polygons[k + 1].v[i] < bound);
        }
        lemma_flattened_within(polygons.skip(1), ears.skip(used as int), bound);
        assert forall|k: int| 0 <= k < all.len() implies (#[trigger] all[k]).v.len() == 3 by {
            if k < triangles.len() {
                assert(all[k] == triangles[k]);
            } else {
                assert(all[k] == more[k - triangles.len()]);
            }
        }
        assert forall|k: int, i: int| 0 <= k < all.len() && 0 <= i < all[k].v.len() implies (
        #[trigger] all[k].v[i]) < bound by {
            if k < triangles.len() {
                assert(all[k] == triangles[k]);
                assert(p.v.contains(triangles[k].v[i]));
                let j = choose|j: int| 0 <= j < p.v.len() && p.v[j] == triangles[k].v[i];
                assert(polygons[0].v[j] < bound);
            } else {
                assert(all[k] == more[k - triangles.len()]);
                assert(more[k - triangles.len()].v[i] < bound);
            }
        }
    }
}

/// A candidate to judge: three vertices in a row of the polygon at hand, the other
/// vertices that are left of it, and its normal.
#[derive(Debug, PartialEq, Eq)]
pub struct Candidate {
    pub a: VertexId,
    pub b: VertexId,
    pub c: VertexId,
    pub others: Vec<VertexId>,
    pub normal: usize,
}

/// A flattening in progress.
#[derive(Debug)]
pub struct Flattener {
    polygons: Vec<Ngon>,
    next: usize,
    norm: usize,
    cycle: Vec<VertexId>,
    cursor: usize,
    found: Vec<Ngon>,
    done: bool,
    out: Vec<Ngon>,
}

impl View for Flattener {
    type V = Flattening;

    closed spec fn view(&self) -> Flattening {
        Flattening {
            rest: views(self.polygons@).skip(self.next as int),
            clip: Clipping {
                norm: self.norm,
                cycle: self.cycle@,
                cursor: self.cursor as nat,
                triangles: views(self.found@),
                done: self.done,
            },
            out: views(self.out@),
        }
    }
}

/// Makes the triangle of three vertices.
fn make_triangle(norm: usize, a: VertexId, b: VertexId, c: VertexId) -> (r: Ngon)
    ensures
        r@ == triangle(norm, a, b, c),
{
    let mut v: Vec<VertexId> = Vec::new();
    v.push(a);
    v.push(b);
    v.push(c);
    assert(v@ =~= seq![a, b, c]);
    Ngon { v, norm }
}

impl Flattener {
    /// The flattener is in order.
    pub closed spec fn wf(&self) -> bool {
        flattening_wf(self@) && self.next <= self.polygons@.len()
    }

    /// Sets out to cut a list of polygons into triangles, one polygon after the other.
    pub fn new(polygons: Vec<Ngon>) -> (r: Flattener)
        requires
            all_polygons(views(polygons@)),
        ensures
            r@ == flattening(views(polygons@)),
            r.wf(),
            flattening_wf(r@),
    {
        let out: Vec<Ngon> = Vec::new();
        assert(views(out@) =~= Seq::<NgonView>::empty());
        assert(views(polygons@).skip(0) =~= views(polygons@));
        proof {
            lemma_proceed_wf(views(polygons@), seq![]);
        }
        Flattener::proceed(polygons, 0, out)
    }

    /// Begins the polygons from `next` on until one has a candidate to judge.
    fn proceed(polygons: Vec<Ngon>, next: usize, out: Vec<Ngon>) -> (r: Flattener)
        requires
            next <= polygons@.len(),
            all_polygons(views(polygons@).skip(next as int)),
        ensures
            r@ == proceed(views(polygons@).skip(next as int), views(out@)),
            r.next <= r.polygons@.len(),
    {
        let ghost ps = views(polygons@);
        let ghost goal = proceed(ps.skip(next as int), views(out@));
        let mut at = next;
        let mut acc = out;
        while at < polygons.len()
            invariant
                at <= polygons@.len(),
                ps == views(polygons@),
                all_polygons(ps.skip(at as int)),
                goal == proceed(ps.skip(next as int), views(out@)),
                proceed(ps.skip(at as int), views(acc@)) == goal,
            decreases polygons.len() - at,
        {
            let ghost rest = ps.skip(at as int);
            let p = &polygons[at];
            assert(rest[0] == p@);
            assert(rest.skip(1) =~= ps.skip(at + 1));
            assert(p.v@.len() >= 3);
            assert(all_polygons(rest.skip(1))) by {
                assert forall|k: int| 0 <= k < rest.skip(1).len() implies (#[trigger] rest.skip(
                    1,
                )[k]).v.len() >= 3 by {
                    assert(rest.skip(1)[k] == rest[k + 1]);
                }
            }
            if p.v.len() <= 3 {
                let ghost before = views(acc@);
                acc.push(make_triangle(p.norm, p.v[0], p.v[1], p.v[2]));
                assert(views(acc@) =~= before + begin(p@).triangles);
                at += 1;
            } else {
                let cycle = copy_ids(&p.v);
                let norm = p.norm;
                let r = Flattener {
                    polygons,
                    next: at + 1,
                    norm,
                    cycle,
                    cursor: 0,
                    found: Vec::new(),
                    done: false,
                    out: acc,
                };
                assert(r@.clip.triangles =~= Seq::<NgonView>::empty());
                return r;
            }
        }
        assert(ps.skip(at as int) =~= Seq::<NgonView>::empty());
        let r = Flattener {
            polygons,
            next: at,
            norm: 0,
            cycle: Vec::new(),
            cursor: 0,
            found: Vec::new(),
            done: true,
            out: acc,
        };
        assert(r@.clip.triangles =~= Seq::<NgonView>::empty());
        assert(r@.clip.cycle =~= Seq::<VertexId>::empty());
        assert(r@.rest =~= Seq::<NgonView>::empty());
        r
    }

    /// The candidate to judge next, if there is one.
    pub fn candidate(&self) -> (r: Option<Candidate>)
        requires
            self.wf(),
        ensures
            r is Some <==> judging(self@),
            r matches Some(cand) ==> {
                &&& candidate(self@.clip.norm, self@.clip.cycle, self@.clip.cursor as int)
                    == triangle(cand.normal, cand.a, cand.b, cand.c)
                &&& cand.others@ == others(self@.clip.cycle, self@.clip.cursor as int)
            },
    {
        if self.done {
            return None;
        }
        let m = self.cycle.len();
        let i = self.cursor;
        let j = if i + 1 >= m { 0 } else { i + 1 };
        let k = if j + 1 >= m { 0 } else { j + 1 };
        let mut rest: Vec<VertexId> = Vec::new();
        let mut n: usize = 0;
        while n < m
            invariant
                n <= m == self.cycle@.len(),
                j as int == next_index(m as int, i as int),
                k as int == next_index(m as int, j as int),
                rest@ == others_upto(self.cycle@, i as int, n as nat),
            decreases m - n,
        {
            if n != i && n != j && n != k {
                rest.push(self.cycle[n]);
            }
            n += 1;
        }
        Some(
            Candidate {
                a: self.cycle[i],
                b: self.cycle[j],
                c: self.cycle[k],
                others: rest,
                normal: self.norm,
            },
        )
    }

    /// The flattener after the candidate at hand has been judged.
    fn judged(self, ear: bool) -> (r: Flattener)
        requires
            self.wf(),
            judging(self@),
        ensures
            r@ == tell(self@, ear),
            r.next <= r.polygons@.len(),
    {
        let ghost f = self@;
        let ghost c = judge(f.clip, ear);
        let Flattener { polygons, next, norm, cycle, cursor, found, done, out } = self;
        let mut cycle = cycle;
        let mut found = found;
        let mut out = out;
        let m = cycle.len();
        let ended = if ear {
            let j = if cursor + 1 >= m { 0 } else { cursor + 1 };
            let k = if j + 1 >= m { 0 } else { j + 1 };
            found.push(make_triangle(norm, cycle[cursor], cycle[j], cycle[k]));
            cycle.remove(j);
            if cycle.len() > 3 {
                assert(views(found@) =~= c.triangles);
                false
            } else {
                found.push(make_triangle(norm, cycle[0], cycle[1], cycle[2]));
                assert(views(found@) =~= c.triangles);
                true
            }
        } else if cursor + 1 < m {
            assert(views(found@) =~= c.triangles);
            false
        } else {
            found.push(make_triangle(norm, cycle[0], cycle[1], cycle[2]));
            assert(views(found@) =~= c.triangles);
            true
        };
        if ended {
            let ghost before = views(out@);
            out.append(&mut found);
            assert(views(out@) =~= before + c.triangles);
            Flattener::proceed(polygons, next, out)
        } else {
            let cursor = if ear { 0 } else { cursor + 1 };
            Flattener { polygons, next, norm, cycle, cursor, found, done: false, out }
        }
    }

    /// Takes the judgement of the candidate at hand: true if it is an ear. Returns
    /// whether there was a candidate to judge; without one nothing changes.
    pub fn answer(&mut self, ear: bool) -> (r: bool)
        requires
            old(self).wf(),
        ensures
            final(self).wf(),
            flattening_wf(final(self)@),
            r == judging(old(self)@),
            final(self)@ == tell(old(self)@, ear),
    {
        if self.done {
            return false;
        }
        let mut me = Flattener {
            polygons: Vec::new(),
            next: 0,
            norm: 0,
            cycle: Vec::new(),
            cursor: 0,
            found: Vec::new(),
            done: true,
            out: Vec::new(),
        };
        core::mem::swap(self, &mut me);
        proof {
            lemma_tell_wf(me@, ear);
        }
        *self = me.judged(ear);
        true
    }

    /// Tells whether every polygon has been cut into triangles.
    pub fn is_finished(&self) -> (r: bool)
        ensures
            r == !judging(self@),
    {
        self.done
    }

    /// Hands out the triangles once every polygon has been cut: each with three
    /// vertices and the normal of the polygon it was cut from.
    pub fn finish(self) -> (r: Option<Vec<Ngon>>)
        requires
            self.wf(),
        ensures
            r is Some <==> !judging(self@),
            r matches Some(triangles) ==> views(triangles@) == self@.out && all_triangles(
                views(triangles@),
            ),
    {
        if self.done {
            Some(self.out)
        } else {
            None
        }
    }
}

impl Node {
    /// The polygons of the leaves below `node`, in the order of a depth-first walk
    /// that takes child 0 before child 1.
    pub fn polygons(node: &Option<Node>) -> (r: Vec<Ngon>)
        ensures
            views(r@) == leaf_polygons(tree_of(*node)),
        decreases *node,
    {
        match node {
            None => {
                let r: Vec<Ngon> = Vec::new();
                assert(views(r@) =~= Seq::<NgonView>::empty());
                r
            },
            Some(Node::Leaf(leaf)) => copy_ngons(&leaf.contents),
            Some(Node::Split(split)) => {
                let mut a = Node::polygons(&split.children.0);
                let mut b = Node::polygons(&split.children.1);
                let ghost va = views(a@);
                let ghost vb = views(b@);
                a.append(&mut b);
                assert(views(a@) =~= va + vb);
                a
            },
        }
    }

    /// Cuts a list of polygons into triangles, one polygon after the other, given
    /// the judgements of the candidates in the order in which they come up. Returns
    /// nothing if the judgements run out before every polygon is done.
    pub fn triangulate(polygons: Vec<Ngon>, ears: &Vec<bool>) -> (r: Option<Vec<Ngon>>)
        requires
            all_polygons(views(polygons@)),
        ensures
            r is Some <==> flattened(views(polygons@), ears@) is Some,
            r matches Some(triangles) ==> views(triangles@) == flattened(
                views(polygons@),
                ears@,
            ).unwrap() && all_triangles(views(triangles@)),
    {
        let ghost ps = views(polygons@);
        let mut flattener = Flattener::new(polygons);
        let mut i: usize = 0;
        assert(ears@.take(0) =~= Seq::<bool>::empty());
        while i < ears.len()
            invariant
                i <= ears.len(),
                flattener.wf(),
                flattener@ == tell_all(flattening(ps), ears@.take(i as int)),
            decreases ears.len() - i,
        {
            proof {
                lemma_tell_all_last(flattening(ps), ears@, i as int);
            }
            flattener.answer(ears[i]);
            i += 1;
        }
        proof {
            assert(ears@.take(i as int) =~= ears@);
            if flattened(ps, ears@) is Some {
                lemma_flattening_flattens(ps, ears@);
            } else {
                lemma_tell_unflattened(ps, seq![], ears@);
            }
        }
        flattener.finish()
    }

    /// Cuts one polygon into triangles by ear clipping, given the judgements of the
    /// candidates in the order in which they come up.
    pub fn triangulate_polygon(polygon: &Ngon, ears: &Vec<bool>) -> (r: Option<Vec<Ngon>>)
        requires
            polygon.v@.len() >= 3,
        ensures
            r is Some <==> clipped(begin(polygon@), ears@) is Some,
            r matches Some(triangles) ==> views(triangles@) == clipped(
                begin(polygon@),
                ears@,
            ).unwrap().0 && all_triangles(views(triangles@)),
    {
        let mut polygons: Vec<Ngon> = Vec::new();
        polygons.push(polygon.clone());
        proof {
            let ps = seq![polygon@];
            assert(views(polygons@) =~= ps);
            assert(ps.skip(1) =~= Seq::<NgonView>::empty());
            match clipped(begin(polygon@), ears@) {
                Some((triangles, used)) => {
                    assert(flattened(ps.skip(1), ears@.skip(used as int)) == Some(
                        Seq::<NgonView>::empty(),
                    ));
                    assert(triangles + Seq::<NgonView>::empty() =~= triangles);
                },
                None => {},
            }
        }
        Node::triangulate(polygons, ears)
    }

    /// Flattens the subtree below `node`: its leaves' polygons, in the order of the
    /// depth-first walk, are cut into triangles one after the other, given the
    /// judgements of the candidates in the order in which they come up.
    pub fn flatten(node: &Option<Node>, ears: &Vec<bool>) -> (r: Option<Vec<Ngon>>)
        requires
            all_polygons(leaf_polygons(tree_of(*node))),
        ensures
            r is Some <==> flattened(leaf_polygons(tree_of(*node)), ears@) is Some,
            r matches Some(triangles) ==> views(triangles@) == flattened(
                leaf_polygons(tree_of(*node)),
                ears@,
            ).unwrap() && all_triangles(views(triangles@)),
    {
        Node::triangulate(Node::polygons(node), ears)
    }

    /// Sets out to flatten a whole tree for export: the flattener returned names the
    /// candidates to judge one after the other.
    pub fn to_stl(root_node: Option<Node>) -> (r: Flattener)
        requires
            all_polygons(leaf_polygons(tree_of(root_node))),
        ensures
            r@ == flattening(leaf_polygons(tree_of(root_node))),
            r.wf(),
            flattening_wf(r@),
    {
        Flattener::new(Node::polygons(&root_node))
    }
}

} // verus!
