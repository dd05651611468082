//! Building the partition tree level by level.
//!
//! The tree of a list of polygons is defined by recursion: the first polygon's plane
//! makes a level, what lies in front and what lies behind are built in turn. On which
//! side a vertex lies is not for the library to tell, so the recursion is run as a
//! machine that keeps its own stack: it names the level it has reached, takes the
//! sides of that level's vertices, and goes on to the next.
use vstd::prelude::*;
use crate::flatten::{all_polygons, leaf_polygons, lemma_tree_polygons};
use crate::level::{
    all_one_sided, fits, level, lemma_level_sizes, lemma_level_unsplit, lemma_level_wf, plane_of,
    side_lists, sides_fit,
};
use crate::mesh::{
    arena_wf, copy_ids, id_lists, ngon_wf, ngons_wf, views, Ngon, NgonView, PlaneTri, Vertex, VertexId,
};
use crate::split::PointInt;
use crate::tree::{
    leaf_wf, lemma_leaf_wf_grow, lemma_ngons_wf_grow, lemma_tree_wf_grow, tree_of, tree_wf, LeafNode,
    LeafView, Node, SplitNode, Tree,
};

verus! {

/// What a machine has put aside while it builds a subtree.
pub enum FrameView {
    /// The front of a level is being built; its leaf and what lies behind wait.
    Front { leaf: LeafView, behind: Seq<NgonView> },
    /// What lies behind a level is being built; the leaf joined with its front waits.
    Behind { front: Tree },
}

/// What a machine is about.
pub enum TaskView {
    /// These polygons are to be built into a subtree.
    Build(Seq<NgonView>),
    /// This subtree has been built.
    Built(Tree),
}

/// The state of a build.
pub struct Machine {
    pub vertices: Seq<Vertex>,
    pub stack: Seq<FrameView>,
    pub task: TaskView,
}

/// The machine waits for the sides of a level.
pub open spec fn awaiting(m: Machine) -> bool {
    m.task matches TaskView::Build(polygons) && polygons.len() > 0
}

/// The machine has built the whole tree.
pub open spec fn finished(m: Machine) -> bool {
    m.task is Built && m.stack.len() == 0
}

/// Joins a leaf with the subtree in front of it.
pub open spec fn join_front(leaf: LeafView, front: Tree) -> Tree {
    Tree::Split(Box::new(Tree::Leaf(leaf)), Box::new(front))
}

/// Joins the subtree behind a level with the leaf and front of that level.
pub open spec fn join_behind(behind: Tree, front: Tree) -> Tree {
    Tree::Split(Box::new(behind), Box::new(front))
}

/// Carries a machine on until it waits for sides or has finished.
///
/// An empty list builds into the absent tree. A built subtree goes to the frame on top
/// of the stack: as the front of a level it is joined with the leaf, and what lies
/// behind, if anything, is built next; as what lies behind it is joined with the rest.
pub open spec fn settle(m: Machine) -> Machine
    decreases m.stack.len(), (if m.task is Build { 1nat } else { 0nat }),
{
    match m.task {
        TaskView::Build(polygons) => if polygons.len() == 0 {
            settle(Machine { task: TaskView::Built(Tree::Absent), ..m })
        } else {
            m
        },
        TaskView::Built(tree) => if m.stack.len() == 0 {
            m
        } else {
            let rest = m.stack.drop_last();
            match m.stack.last() {
                FrameView::Front { leaf, behind } => if behind.len() == 0 {
                    settle(
                        Machine { stack: rest, task: TaskView::Built(join_front(leaf, tree)), ..m },
                    )
                } else {
                    Machine {
                        stack: rest.push(FrameView::Behind { front: join_front(leaf, tree) }),
                        task: TaskView::Build(behind),
                        ..m
                    }
                },
                FrameView::Behind { front } => settle(
                    Machine { stack: rest, task: TaskView::Built(join_behind(tree, front)), ..m },
                ),
            }
        },
    }
}

/// The machine that sets out to build `polygons`.
pub open spec fn start(polygons: Seq<NgonView>, vertices: Seq<Vertex>) -> Machine {
    settle(Machine { vertices, stack: seq![], task: TaskView::Build(polygons) })
}

/// The machine after it has taken the sides of the level it waits for. Sides that do
/// not fit that level, or that come when no level waits, leave it as it is.
///
/// A level with nothing in front and nothing behind is its leaf. Otherwise the leaf and
/// what lies behind are put aside and the front is built first.
pub open spec fn advance(m: Machine, sides: Seq<Seq<PointInt>>) -> Machine {
    match m.task {
        TaskView::Build(polygons) => if polygons.len() > 0 && fits(polygons, sides) {
            let l = level(polygons, sides, m.vertices.len());
            let vertices = m.vertices + l.cuts;
            if l.front.len() == 0 && l.behind.len() == 0 {
                settle(Machine { vertices, stack: m.stack, task: TaskView::Built(Tree::Leaf(l.leaf)) })
            } else {
                settle(
                    Machine {
                        vertices,
                        stack: m.stack.push(FrameView::Front { leaf: l.leaf, behind: l.behind }),
                        task: TaskView::Build(l.front),
                    },
                )
            }
        } else {
            m
        },
        TaskView::Built(_) => m,
    }
}

/// The machine after it has been given these answers one after the other.
pub open spec fn run(m: Machine, answers: Seq<Seq<Seq<PointInt>>>) -> Machine
    decreases answers.len(),
{
    if answers.len() == 0 {
        m
    } else {
        run(advance(m, answers[0]), answers.skip(1))
    }
}

/// A tree that has been built, the arena as it then stands, and the number of answers
/// that went into it.
pub struct Built {
    pub tree: Tree,
    pub vertices: Seq<Vertex>,
    pub used: nat,
}

/// The tree of a list of polygons, where `answers` holds the sides of each level in
/// the order in which the levels are reached: a level, then all that lies in front of
/// it, then all that lies behind. Nothing is built where an answer is missing or does
/// not fit its level.
///
/// No polygons, no tree. Else the first polygon's plane makes a level. With nothing in
/// front and nothing behind the level's leaf is the tree. With nothing behind the tree
/// is the leaf and, as second child, the tree of the front. Else it is the tree of
/// what lies behind and, as second child, the leaf joined with the tree of the front.
pub open spec fn build(
    polygons: Seq<NgonView>,
    answers: Seq<Seq<Seq<PointInt>>>,
    vertices: Seq<Vertex>,
) -> Option<Built>
    decreases polygons.len(),
    via build_decreases
{
    if polygons.len() == 0 {
        Some(Built { tree: Tree::Absent, vertices, used: 0 })
    } else if answers.len() == 0 || !fits(polygons, answers[0]) {
        None
    } else {
        let l = level(polygons, answers[0], vertices.len());
        let grown = vertices + l.cuts;
        if l.front.len() == 0 && l.behind.len() == 0 {
            Some(Built { tree: Tree::Leaf(l.leaf), vertices: grown, used: 1 })
        } else {
            match build(l.front, answers.skip(1), grown) {
                None => None,
                Some(f) => if l.behind.len() == 0 {
                    Some(
                        Built {
                            tree: join_front(l.leaf, f.tree),
                            vertices: f.vertices,
                            used: 1 + f.used,
                        },
                    )
                } else {
                    match build(l.behind, answers.skip((1 + f.used) as int), f.vertices) {
                        None => None,
                        Some(b) => Some(
                            Built {
                                tree: join_behind(b.tree, join_front(l.leaf, f.tree)),
                                vertices: b.vertices,
                                used: 1 + f.used + b.used,
                            },
                        ),
                    }
                },
            }
        }
    }
}

#[via_fn]
proof fn build_decreases(
    polygons: Seq<NgonView>,
    answers: Seq<Seq<Seq<PointInt>>>,
    vertices: Seq<Vertex>,
) {
    if polygons.len() > 0 && answers.len() > 0 && fits(polygons, answers[0]) {
        lemma_level_sizes(polygons, answers[0], vertices.len(), (polygons.len() - 1) as nat);
    }
}

/// A machine that has finished stays as it is, whatever it is given.
proof fn lemma_run_finished(m: Machine, answers: Seq<Seq<Seq<PointInt>>>)
    requires
        m.task is Built,
    ensures
        run(m, answers) == m,
    decreases answers.len(),
{
    if answers.len() > 0 {
        lemma_run_finished(m, answers.skip(1));
    }
}

/// Building a subtree on the machine comes to what the recursion says: from any
/// stack, the machine that is to build `polygons` runs through as many answers as the
/// recursion uses and then stands where the built subtree is handed to that stack.
proof fn lemma_run_subtree(
    polygons: Seq<NgonView>,
    answers: Seq<Seq<Seq<PointInt>>>,
    vertices: Seq<Vertex>,
    stack: Seq<FrameView>,
)
    requires
        build(polygons, answers, vertices) is Some,
    ensures
        ({
            let b = build(polygons, answers, vertices).unwrap();
            &&& b.used <= answers.len()
            &&& run(settle(Machine { vertices, stack, task: TaskView::Build(polygons) }), answers)
                == run(
                settle(Machine { vertices: b.vertices, stack, task: TaskView::Built(b.tree) }),
                answers.skip(b.used as int),
            )
        }),
    decreases polygons.len(),
{
    let b = build(polygons, answers, vertices).unwrap();
    let m0 = Machine { vertices, stack, task: TaskView::Build(polygons) };
    if polygons.len() == 0 {
        assert(answers.skip(0) =~= answers);
    } else {
        let l = level(polygons, answers[0], vertices.len());
        let grown = vertices + l.cuts;
        let rest = answers.skip(1);
        lemma_level_sizes(polygons, answers[0], vertices.len(), (polygons.len() - 1) as nat);
        assert(settle(m0) == m0);
        assert(run(m0, answers) == run(advance(m0, answers[0]), rest));
        if l.front.len() == 0 && l.behind.len() == 0 {
        } else {
            let up = stack.push(FrameView::Front { leaf: l.leaf, behind: l.behind });
            let f = build(l.front, rest, grown).unwrap();
            lemma_run_subtree(l.front, rest, grown, up);
            let inner = join_front(l.leaf, f.tree);
            let handed = Machine { vertices: f.vertices, stack: up, task: TaskView::Built(f.tree) };
            assert(up.drop_last() =~= stack);
            assert(up.last() == FrameView::Front { leaf: l.leaf, behind: l.behind });
            assert(rest.skip(f.used as int) =~= answers.skip((1 + f.used) as int));
            if l.behind.len() == 0 {
                assert(settle(handed) == settle(
                    Machine { vertices: f.vertices, stack, task: TaskView::Built(inner) },
                ));
            } else {
                let over = stack.push(FrameView::Behind { front: inner });
                let next = Machine {
                    vertices: f.vertices,
                    stack: over,
                    task: TaskView::Build(l.behind),
                };
                assert(settle(handed) == next);
                assert(settle(next) == next);
                let later = answers.skip((1 + f.used) as int);
                let h = build(l.behind, later, f.vertices).unwrap();
                lemma_run_subtree(l.behind, later, f.vertices, over);
                assert(over.drop_last() =~= stack);
                assert(over.last() == FrameView::Behind { front: inner });
                assert(later.skip(h.used as int) =~= answers.skip((1 + f.used + h.used) as int));
                assert(settle(
                    Machine { vertices: h.vertices, stack: over, task: TaskView::Built(h.tree) },
                ) == settle(
                    Machine {
                        vertices: h.vertices,
                        stack,
                        task: TaskView::Built(join_behind(h.tree, inner)),
                    },
                ));
            }
        }
    }
}

/// The machine builds the tree of the recursion: run on answers that the recursion
/// can build from, it ends finished, with that tree and that arena.
pub proof fn lemma_run_builds(
    polygons: Seq<NgonView>,
    answers: Seq<Seq<Seq<PointInt>>>,
    vertices: Seq<Vertex>,
)
    requires
        build(polygons, answers, vertices) is Some,
    ensures
        run(start(polygons, vertices), answers) == (Machine {
            vertices: build(polygons, answers, vertices).unwrap().vertices,
            stack: seq![],
            task: TaskView::Built(build(polygons, answers, vertices).unwrap().tree),
        }),
{
    let b = build(polygons, answers, vertices).unwrap();
    lemma_run_subtree(polygons, answers, vertices, seq![]);
    let end = Machine { vertices: b.vertices, stack: seq![], task: TaskView::Built(b.tree) };
    assert(settle(end) == end);
    lemma_run_finished(end, answers.skip(b.used as int));
}

/// No polygons, no tree: the machine is finished from the start, with the absent tree.
pub proof fn lemma_empty_builds_nothing(vertices: Seq<Vertex>)
    ensures
        start(seq![], vertices) == (Machine {
            vertices,
            stack: seq![],
            task: TaskView::Built(Tree::Absent),
        }),
{
    let m = Machine { vertices, stack: seq![], task: TaskView::Build(seq![]) };
    assert(settle(m) == settle(Machine { task: TaskView::Built(Tree::Absent), ..m }));
}

/// The number of leaves of a tree.
pub open spec fn leaf_count(tree: Tree) -> nat
    decreases tree,
{
    match tree {
        Tree::Absent => 0,
        Tree::Leaf(_) => 1,
        Tree::Split(a, b) => leaf_count(*a) + leaf_count(*b),
    }
}

/// Each level gives one leaf: a tree has as many leaves as answers went into it. And
/// the arena only grows: the vertices it held before are the first of those it holds
/// after.
pub proof fn lemma_leaf_per_level(
    polygons: Seq<NgonView>,
    answers: Seq<Seq<Seq<PointInt>>>,
    vertices: Seq<Vertex>,
)
    requires
        build(polygons, answers, vertices) is Some,
    ensures
        leaf_count(build(polygons, answers, vertices).unwrap().tree) == build(
            polygons,
            answers,
            vertices,
        ).unwrap().used,
        build(polygons, answers, vertices).unwrap().used <= answers.len(),
        vertices.len() <= build(polygons, answers, vertices).unwrap().vertices.len(),
        build(polygons, answers, vertices).unwrap().vertices.subrange(0, vertices.len() as int)
            == vertices,
    decreases polygons.len(),
{
    let b = build(polygons, answers, vertices).unwrap();
    if polygons.len() == 0 {
        assert(b.vertices.subrange(0, vertices.len() as int) =~= vertices);
    } else {
        let l = level(polygons, answers[0], vertices.len());
        let grown = vertices + l.cuts;
        lemma_level_sizes(polygons, answers[0], vertices.len(), (polygons.len() - 1) as nat);
        assert(leaf_count(Tree::Leaf(l.leaf)) == 1);
        if l.front.len() == 0 && l.behind.len() == 0 {
            assert(b.vertices.subrange(0, vertices.len() as int) =~= vertices);
        } else {
            let f = build(l.front, answers.skip(1), grown).unwrap();
            lemma_leaf_per_level(l.front, answers.skip(1), grown);
            assert(leaf_count(join_front(l.leaf, f.tree)) == 1 + f.used);
            assert(f.vertices.subrange(0, vertices.len() as int) =~= vertices) by {
                assert(f.vertices.subrange(0, grown.len() as int) == grown);
                assert forall|i: int| 0 <= i < vertices.len() implies f.vertices[i] == vertices[i] by {
                    assert(f.vertices.subrange(0, grown.len() as int)[i] == grown[i]);
                }
            }
            if l.behind.len() > 0 {
                let later = answers.skip((1 + f.used) as int);
                let h = build(l.behind, later, f.vertices).unwrap();
                lemma_leaf_per_level(l.behind, later, f.vertices);
                assert(h.vertices.subrange(0, vertices.len() as int) =~= vertices) by {
                    assert forall|i: int| 0 <= i < vertices.len() implies h.vertices[i]
                        == vertices[i] by {
                        assert(h.vertices.subrange(0, f.vertices.len() as int)[i] == f.vertices[i]);
                        assert(f.vertices.subrange(0, vertices.len() as int)[i] == vertices[i]);
                    }
                }
            }
        }
    }
}

/// Every leaf of the tree holds one polygon.
pub open spec fn single_leaves(tree: Tree) -> bool
    decreases tree,
{
    match tree {
        Tree::Absent => true,
        Tree::Leaf(leaf) => leaf.contents.len() == 1,
        Tree::Split(a, b) => single_leaves(*a) && single_leaves(*b),
    }
}

/// Where no plane meets a polygon other than its own, nothing is made and nothing is
/// lost. If at every level every polygon keeps to one side of the plane (none lies in
/// it, none is split), whatever the order of the polygons and whichever way they
/// wind, then no vertex enters the arena, the tree has one leaf for each polygon,
/// each leaf holds one polygon, and the polygons of the leaves are those that were
/// given, each once.
pub proof fn lemma_unsplit_build(
    polygons: Seq<NgonView>,
    answers: Seq<Seq<Seq<PointInt>>>,
    vertices: Seq<Vertex>,
)
    requires
        build(polygons, answers, vertices) matches Some(b) && forall|j: int|
            0 <= j < b.used ==> all_one_sided(#[trigger] answers[j]),
    ensures
        ({
            let b = build(polygons, answers, vertices).unwrap();
            &&& b.vertices == vertices
            &&& b.used == polygons.len()
            &&& leaf_count(b.tree) == polygons.len()
            &&& single_leaves(b.tree)
            &&& leaf_polygons(b.tree).to_multiset() == polygons.to_multiset()
        }),
    decreases polygons.len(),
{
    broadcast use vstd::seq_lib::lemma_multiset_commutative;
    broadcast use vstd::multiset::group_multiset_axioms;

    let b = build(polygons, answers, vertices).unwrap();
    if polygons.len() == 0 {
        assert(leaf_polygons(b.tree) =~= polygons);
    } else {
        let n = polygons.len();
        let l = level(polygons, answers[0], vertices.len());
        let grown = vertices + l.cuts;
        let first = seq![polygons[0]];
        let others = polygons.subrange(1, n as int);
        lemma_level_sizes(polygons, answers[0], vertices.len(), (n - 1) as nat);
        lemma_level_unsplit(polygons, answers[0], vertices.len(), (n - 1) as nat);
        assert(grown =~= vertices);
        assert(polygons =~= first + others);
        assert(leaf_polygons(Tree::Leaf(l.leaf)) == first);
        assert(single_leaves(Tree::Leaf(l.leaf)));
        assert(leaf_count(Tree::Leaf(l.leaf)) == 1);
        let none = Seq::<NgonView>::empty();
        vstd::seq_lib::to_multiset_len(none);
        vstd::multiset::lemma_multiset_empty_len(none.to_multiset());
        if l.front.len() == 0 && l.behind.len() == 0 {
            assert(others =~= none);
            assert(polygons =~= first);
        } else {
            let rest = answers.skip(1);
            let f = build(l.front, rest, grown).unwrap();
            lemma_leaf_per_level(l.front, rest, grown);
            assert forall|j: int| 0 <= j < f.used implies all_one_sided(#[trigger] rest[j]) by {
                assert(rest[j] == answers[j + 1]);
            }
            lemma_unsplit_build(l.front, rest, grown);
            let inner = join_front(l.leaf, f.tree);
            assert(leaf_polygons(inner) == first + leaf_polygons(f.tree));
            assert(single_leaves(inner));
            assert(leaf_count(inner) == 1 + l.front.len());
            if l.behind.len() == 0 {
                assert(l.behind =~= none);
                assert(leaf_polygons(inner).to_multiset() =~= polygons.to_multiset());
            } else {
                let later = answers.skip((1 + f.used) as int);
                let h = build(l.behind, later, f.vertices).unwrap();
                lemma_leaf_per_level(l.behind, later, f.vertices);
                assert forall|j: int| 0 <= j < h.used implies all_one_sided(
                    #[trigger] later[j],
                ) by {
                    assert(later[j] == answers[j + 1 + f.used]);
                }
                lemma_unsplit_build(l.behind, later, f.vertices);
                let outer = join_behind(h.tree, inner);
                assert(leaf_polygons(outer) == leaf_polygons(h.tree) + leaf_polygons(inner));
                assert(leaf_polygons(outer).to_multiset() =~= polygons.to_multiset());
            }
        }
    }
}

/// What a frame holds is well formed in an arena of `bound` vertices.
pub open spec fn frame_wf(frame: FrameView, bound: nat) -> bool {
    match frame {
        FrameView::Front { leaf, behind } => leaf_wf(leaf, bound) && ngons_wf(behind, bound),
        FrameView::Behind { front } => tree_wf(front, bound),
    }
}

/// The arena is well formed and its handles fit the machine's word; every polygon,
/// portal and subtree that the machine holds names vertices of the arena only, and
/// every polygon has at least three vertices.
pub open spec fn machine_wf(m: Machine) -> bool {
    &&& arena_wf(m.vertices)
    &&& m.vertices.len() <= usize::MAX
    &&& forall|i: int|
        0 <= i < m.stack.len() ==> frame_wf(#[trigger] m.stack[i], m.vertices.len())
    &&& match m.task {
        TaskView::Build(polygons) => ngons_wf(polygons, m.vertices.len()),
        TaskView::Built(tree) => tree_wf(tree, m.vertices.len()),
    }
}

/// Joining well-formed parts gives a well-formed tree.
proof fn lemma_joins_wf(frame: FrameView, tree: Tree, bound: nat)
    requires
        frame_wf(frame, bound),
        tree_wf(tree, bound),
    ensures
        frame matches FrameView::Front { leaf, behind } ==> tree_wf(join_front(leaf, tree), bound),
        frame matches FrameView::Behind { front } ==> tree_wf(join_behind(tree, front), bound),
{
    match frame {
        FrameView::Front { leaf, behind } => {
            assert(tree_wf(Tree::Leaf(leaf), bound));
        },
        FrameView::Behind { front } => {},
    }
}

/// Settling keeps the arena and well-formedness, and ends in a machine that waits for
/// sides or has finished, which settling leaves as it is.
pub proof fn lemma_settle_wf(m: Machine)
    ensures
        settle(m).vertices == m.vertices,
        awaiting(settle(m)) || finished(settle(m)),
        settle(settle(m)) == settle(m),
        machine_wf(m) ==> machine_wf(settle(m)),
    decreases m.stack.len(), (if m.task is Build { 1nat } else { 0nat }),
{
    match m.task {
        TaskView::Build(polygons) => {
            if polygons.len() == 0 {
                assert(tree_wf(Tree::Absent, m.vertices.len()));
                lemma_settle_wf(Machine { task: TaskView::Built(Tree::Absent), ..m });
            }
        },
        TaskView::Built(tree) => {
            if m.stack.len() > 0 {
                let rest = m.stack.drop_last();
                let bound = m.vertices.len();
                if machine_wf(m) {
                    assert(frame_wf(m.stack[m.stack.len() - 1], bound));
                    lemma_joins_wf(m.stack.last(), tree, bound);
                    assert forall|i: int| 0 <= i < rest.len() implies frame_wf(
                        #[trigger] rest[i],
                        bound,
                    ) by {
                        assert(rest[i] == m.stack[i]);
                    }
                }
                match m.stack.last() {
                    FrameView::Front { leaf, behind } => {
                        if behind.len() == 0 {
                            lemma_settle_wf(
                                Machine {
                                    stack: rest,
                                    task: TaskView::Built(join_front(leaf, tree)),
                                    ..m
                                },
                            );
                        } else {
                            let over = rest.push(FrameView::Behind { front: join_front(leaf, tree) });
                            if machine_wf(m) {
                                assert forall|i: int| 0 <= i < over.len() implies frame_wf(
                                    #[trigger] over[i],
                                    bound,
                                ) by {
                                    if i < rest.len() {
                                        assert(over[i] == rest[i]);
                                    }
                                }
                            }
                        }
                    },
                    FrameView::Behind { front } => {
                        lemma_settle_wf(
                            Machine {
                                stack: rest,
                                task: TaskView::Built(join_behind(tree, front)),
                                ..m
                            },
                        );
                    },
                }
            }
        },
    }
}

/// Taking sides keeps a machine well formed, as long as the handles of the grown
/// arena fit the machine's word, and leaves it waiting for sides or finished.
pub proof fn lemma_advance_wf(m: Machine, sides: Seq<Seq<PointInt>>)
    requires
        machine_wf(m),
        awaiting(m) || finished(m),
        advance(m, sides).vertices.len() <= usize::MAX,
    ensures
        machine_wf(advance(m, sides)),
        awaiting(advance(m, sides)) || finished(advance(m, sides)),
        m.vertices.len() <= advance(m, sides).vertices.len(),
{
    if let TaskView::Build(polygons) = m.task {
        if polygons.len() > 0 && fits(polygons, sides) {
            let l = level(polygons, sides, m.vertices.len());
            let grown = m.vertices + l.cuts;
            let bound = grown.len();
            let leafed = Machine {
                vertices: grown,
                stack: m.stack,
                task: TaskView::Built(Tree::Leaf(l.leaf)),
            };
            let up = m.stack.push(FrameView::Front { leaf: l.leaf, behind: l.behind });
            let fronted = Machine { vertices: grown, stack: up, task: TaskView::Build(l.front) };
            lemma_settle_wf(leafed);
            lemma_settle_wf(fronted);
            lemma_level_wf(polygons, sides, m.vertices, (polygons.len() - 1) as nat);
            assert forall|i: int| 0 <= i < m.stack.len() implies frame_wf(
                #[trigger] m.stack[i],
                bound,
            ) by {
                lemma_frame_wf_grow(m.stack[i], m.vertices.len(), bound);
            }
            assert forall|i: int| 0 <= i < up.len() implies frame_wf(#[trigger] up[i], bound) by {
                if i < m.stack.len() {
                    assert(up[i] == m.stack[i]);
                }
            }
            assert(machine_wf(leafed));
            assert(machine_wf(fronted));
        }
    }
}

/// What a frame holds stays well formed when the arena grows.
proof fn lemma_frame_wf_grow(frame: FrameView, bound: nat, more: nat)
    requires
        frame_wf(frame, bound),
        bound <= more,
    ensures
        frame_wf(frame, more),
{
    match frame {
        FrameView::Front { leaf, behind } => {
            lemma_leaf_wf_grow(leaf, bound, more);
            lemma_ngons_wf_grow(behind, bound, more);
        },
        FrameView::Behind { front } => {
            lemma_tree_wf_grow(front, bound, more);
        },
    }
}

/// The stack is no deeper than the lists allow: with `n` polygons at the outset, a
/// list that waits above `i` frames has at most `n - i - 1` polygons, and so has the
/// list at hand above the whole stack, counting one frame less.
pub open spec fn within_depth(m: Machine, n: nat) -> bool {
    &&& forall|i: int|
        0 <= i < m.stack.len() ==> ((#[trigger] m.stack[i]) matches FrameView::Front {
            behind,
            ..
        } ==> behind.len() + i + 1 <= n)
    &&& m.stack.len() <= n
    &&& m.task matches TaskView::Build(polygons) ==> polygons.len() + m.stack.len() <= n
}

/// Settling keeps the stack within its depth.
proof fn lemma_settle_depth(m: Machine, n: nat)
    requires
        within_depth(m, n),
    ensures
        within_depth(settle(m), n),
    decreases m.stack.len(), (if m.task is Build { 1nat } else { 0nat }),
{
    match m.task {
        TaskView::Build(polygons) => {
            if polygons.len() == 0 {
                lemma_settle_depth(Machine { task: TaskView::Built(Tree::Absent), ..m }, n);
            }
        },
        TaskView::Built(tree) => {
            if m.stack.len() > 0 {
                let rest = m.stack.drop_last();
                assert forall|i: int| 0 <= i < rest.len() implies ((#[trigger] rest[i]) matches FrameView::Front {
                    behind,
                    ..
                } ==> behind.len() + i + 1 <= n) by {
                    assert(rest[i] == m.stack[i]);
                }
                assert(m.stack.last() == m.stack[m.stack.len() - 1]);
                match m.stack.last() {
                    FrameView::Front { leaf, behind } => {
                        if behind.len() == 0 {
                            lemma_settle_depth(
                                Machine {
                                    stack: rest,
                                    task: TaskView::Built(join_front(leaf, tree)),
                                    ..m
                                },
                                n,
                            );
                        } else {
                            let over = rest.push(FrameView::Behind { front: join_front(leaf, tree) });
                            assert forall|i: int| 0 <= i < over.len() implies ((
                            #[trigger] over[i]) matches FrameView::Front { behind, .. }
                                ==> behind.len() + i + 1 <= n) by {
                                if i < rest.len() {
                                    assert(over[i] == rest[i]);
                                }
                            }
                        }
                    },
                    FrameView::Behind { front } => {
                        lemma_settle_depth(
                            Machine {
                                stack: rest,
                                task: TaskView::Built(join_behind(tree, front)),
                                ..m
                            },
                            n,
                        );
                    },
                }
            }
        },
    }
}

/// Taking sides keeps the stack within its depth.
proof fn lemma_advance_depth(m: Machine, sides: Seq<Seq<PointInt>>, n: nat)
    requires
        within_depth(m, n),
    ensures
        within_depth(advance(m, sides), n),
{
    if let TaskView::Build(polygons) = m.task {
        if polygons.len() > 0 && fits(polygons, sides) {
            let l = level(polygons, sides, m.vertices.len());
            let grown = m.vertices + l.cuts;
            lemma_level_sizes(polygons, sides, m.vertices.len(), (polygons.len() - 1) as nat);
            let up = m.stack.push(FrameView::Front { leaf: l.leaf, behind: l.behind });
            assert forall|i: int| 0 <= i < up.len() implies ((#[trigger] up[i]) matches FrameView::Front {
                behind,
                ..
            } ==> behind.len() + i + 1 <= n) by {
                if i < m.stack.len() {
                    assert(up[i] == m.stack[i]);
                }
            }
            lemma_settle_depth(
                Machine { vertices: grown, stack: m.stack, task: TaskView::Built(Tree::Leaf(l.leaf)) },
                n,
            );
            if !(l.front.len() == 0 && l.behind.len() == 0) {
                lemma_settle_depth(
                    Machine { vertices: grown, stack: up, task: TaskView::Build(l.front) },
                    n,
                );
            }
        }
    }
}

/// Whatever the answers, the stack stays within its depth.
proof fn lemma_run_depth(m: Machine, answers: Seq<Seq<Seq<PointInt>>>, n: nat)
    requires
        within_depth(m, n),
    ensures
        within_depth(run(m, answers), n),
    decreases answers.len(),
{
    if answers.len() > 0 {
        lemma_advance_depth(m, answers[0], n);
        lemma_run_depth(advance(m, answers[0]), answers.skip(1), n);
    }
}

/// The depth of the build is bounded by the number of polygons: whatever the
/// answers, the machine that set out with `n` polygons never has more than `n`
/// frames on its stack, and fewer than `n` while it waits for sides.
pub proof fn lemma_depth_bounded(
    polygons: Seq<NgonView>,
    answers: Seq<Seq<Seq<PointInt>>>,
    vertices: Seq<Vertex>,
)
    ensures
        run(start(polygons, vertices), answers).stack.len() <= polygons.len(),
        awaiting(run(start(polygons, vertices), answers)) ==> run(
            start(polygons, vertices),
            answers,
        ).stack.len() < polygons.len(),
{
    let m = Machine { vertices, stack: seq![], task: TaskView::Build(polygons) };
    lemma_settle_depth(m, polygons.len());
    lemma_run_depth(start(polygons, vertices), answers, polygons.len());
}

/// What a builder has put aside while it builds a subtree.
#[derive(Debug)]
enum Frame {
    Front { leaf: LeafNode, behind: Vec<Ngon> },
    Behind { front: Node },
}

impl View for Frame {
    type V = FrameView;

    closed spec fn view(&self) -> FrameView {
        match self {
            Frame::Front { leaf, behind } => FrameView::Front {
                leaf: leaf@,
                behind: views(behind@),
            },
            Frame::Behind { front } => FrameView::Behind { front: front@ },
        }
    }
}

/// What a builder is about.
#[derive(Debug)]
enum Task {
    Build(Vec<Ngon>),
    Built(Option<Node>),
}

impl View for Task {
    type V = TaskView;

    closed spec fn view(&self) -> TaskView {
        match self {
            Task::Build(polygons) => TaskView::Build(views(polygons@)),
            Task::Built(root) => TaskView::Built(tree_of(*root)),
        }
    }
}

/// Why a builder did not do what it was asked.
#[derive(Clone, Copy, Debug, PartialEq, Eq, Structural)]
pub enum BuildError {
    /// Sides were given while no level waits for them: the tree is built.
    NothingPending,
    /// The sides given do not fit the level that waits: there is not one list for each
    /// of its polygons after the first, or a list has not one side for each vertex.
    SidesMisfit,
    /// The tree was asked for while a level still waits for its sides.
    Unfinished,
}

/// The level that a builder waits for: the plane to hold the polygons against, and
/// the vertices of each polygon whose sides are wanted, in the order wanted.
#[derive(Debug, PartialEq, Eq)]
pub struct Request {
    pub plane: PlaneTri,
    pub polygons: Vec<Vec<VertexId>>,
}

/// The vertex lists of the polygons after the first.
pub open spec fn asked(polygons: Seq<NgonView>) -> Seq<Seq<VertexId>> {
    Seq::new((polygons.len() - 1) as nat, |k: int| polygons[k + 1].v)
}

/// A build in progress.
#[derive(Debug)]
pub struct Builder {
    vertices: Vec<Vertex>,
    stack: Vec<Frame>,
    task: Task,
}

impl View for Builder {
    type V = Machine;

    closed spec fn view(&self) -> Machine {
        Machine { vertices: self.vertices@, stack: frames(self.stack@), task: self.task@ }
    }
}

/// The values of a stack of frames.
spec fn frames(stack: Seq<Frame>) -> Seq<FrameView> {
    stack.map_values(|f: Frame| f@)
}

impl Builder {
    /// The builder is well formed, and it waits for sides or has finished.
    pub open spec fn wf(&self) -> bool {
        &&& machine_wf(self@)
        &&& awaiting(self@) || finished(self@)
    }

    /// Carries the builder on until it waits for sides or has finished.
    fn settle(self) -> (r: Builder)
        ensures
            r@ == settle(self@),
    {
        let ghost goal = settle(self@);
        let Builder { vertices, stack, task } = self;
        let mut stack = stack;
        let mut task = task;
        loop
            invariant
                goal == settle(self@),
                settle(Machine { vertices: vertices@, stack: frames(stack@), task: task@ }) == goal,
            decreases stack.len(), (if task is Build { 1nat } else { 0nat }),
        {
            let ghost m = Machine { vertices: vertices@, stack: frames(stack@), task: task@ };
            match task {
                Task::Build(polygons) => {
                    if polygons.len() == 0 {
                        task = Task::Built(None);
                        assert(task@ == TaskView::Built(Tree::Absent));
                    } else {
                        assert(settle(m) == m);
                        return Builder { vertices, stack, task: Task::Build(polygons) };
                    }
                },
                Task::Built(root) => {
                    let ghost before = stack@;
                    match stack.pop() {
                        None => {
                            assert(settle(m) == m);
                            return Builder { vertices, stack, task: Task::Built(root) };
                        },
                        Some(Frame::Front { leaf, behind }) => {
                            assert(frames(stack@) =~= m.stack.drop_last());
                            assert(m.stack.last() == before.last()@);
                            let inner = Node::Split(
                                Box::new(
                                    SplitNode { children: (Some(Node::Leaf(Box::new(leaf))), root) },
                                ),
                            );
                            assert(inner@ == join_front(leaf@, tree_of(root))) by {
                                reveal_with_fuel(tree_of, 3);
                            }
                            if behind.len() == 0 {
                                task = Task::Built(Some(inner));
                            } else {
                                let ghost rest = stack@;
                                stack.push(Frame::Behind { front: inner });
                                assert(frames(stack@) =~= frames(rest).push(
                                    FrameView::Behind { front: inner@ },
                                ));
                                assert(settle(m) == (Machine {
                                    vertices: vertices@,
                                    stack: frames(stack@),
                                    task: TaskView::Build(views(behind@)),
                                }));
                                return Builder { vertices, stack, task: Task::Build(behind) };
                            }
                        },
                        Some(Frame::Behind { front }) => {
                            assert(frames(stack@) =~= m.stack.drop_last());
                            assert(m.stack.last() == before.last()@);
                            let outer = Node::Split(
                                Box::new(SplitNode { children: (root, Some(front)) }),
                            );
                            assert(outer@ == join_behind(tree_of(root), front@)) by {
                                reveal_with_fuel(tree_of, 3);
                            }
                            task = Task::Built(Some(outer));
                        },
                    }
                },
            }
        }
    }

    /// The level that the builder waits for, if it waits for one.
    pub fn request(&self) -> (r: Option<Request>)
        requires
            self.wf(),
        ensures
            r is Some <==> awaiting(self@),
            r is None <==> finished(self@),
            r matches Some(request) ==> self@.task matches TaskView::Build(polygons) && {
                &&& request.plane == plane_of(polygons[0])
                &&& id_lists(request.polygons@) == asked(polygons)
            },
    {
        match &self.task {
            Task::Built(_) => None,
            Task::Build(polygons) => {
                let ghost ps = views(polygons@);
                assert(ngon_wf(ps[0], self.vertices@.len()));
                let reference = &polygons[0];
                let plane = PlaneTri { a: reference.v[0], b: reference.v[1], c: reference.v[2] };
                let mut lists: Vec<Vec<VertexId>> = Vec::new();
                let mut k: usize = 1;
                while k < polygons.len()
                    invariant
                        1 <= k <= polygons.len(),
                        ps == views(polygons@),
                        lists@.len() == k - 1,
                        forall|j: int| 0 <= j < k - 1 ==> (#[trigger] lists@[j])@ == ps[j + 1].v,
                    decreases polygons.len() - k,
                {
                    lists.push(copy_ids(&polygons[k].v));
                    k += 1;
                }
                assert(id_lists(lists@) =~= asked(ps));
                Some(Request { plane, polygons: lists })
            },
        }
    }

    /// Takes the sides of the level that the builder waits for and carries the build
    /// on to the next level or to its end. Sides that cannot be taken change nothing.
    pub fn advance(&mut self, sides: &Vec<Vec<PointInt>>) -> (r: Result<(), BuildError>)
        requires
            old(self).wf(),
        ensures
            final(self).wf(),
            final(self)@ == advance(old(self)@, side_lists(sides@)),
            r is Ok <==> awaiting(old(self)@) && (old(self)@.task matches TaskView::Build(polygons)
                && fits(polygons, side_lists(sides@))),
            r == Err::<(), BuildError>(BuildError::NothingPending) <==> finished(old(self)@),
            r is Err ==> final(self)@ == old(self)@,
            r is Err && !finished(old(self)@) ==> r == Err::<(), BuildError>(
                BuildError::SidesMisfit,
            ),
    {
        let ghost m = self@;
        let ghost ss = side_lists(sides@);
        let fit = match &self.task {
            Task::Built(_) => {
                return Err(BuildError::NothingPending);
            },
            Task::Build(polygons) => sides_fit(polygons, sides),
        };
        if !fit {
            return Err(BuildError::SidesMisfit);
        }
        let mut task = Task::Built(None);
        core::mem::swap(&mut self.task, &mut task);
        let mut stack: Vec<Frame> = Vec::new();
        core::mem::swap(&mut self.stack, &mut stack);
        let mut vertices: Vec<Vertex> = Vec::new();
        core::mem::swap(&mut self.vertices, &mut vertices);
        assert(frames(stack@) == m.stack);
        if let Task::Build(polygons) = task {
            let ghost ps = views(polygons@);
            let ghost l = level(ps, ss, m.vertices.len());
            assert(ngon_wf(ps[0], m.vertices.len()));
            let (leaf, in_front, behind) = Node::partition(&polygons, sides, &mut vertices);
            let next = if in_front.len() == 0 && behind.len() == 0 {
                Builder { vertices, stack, task: Task::Built(Some(Node::Leaf(Box::new(leaf)))) }
            } else {
                let ghost below = stack@;
                stack.push(Frame::Front { leaf, behind });
                assert(frames(stack@) =~= frames(below).push(
                    FrameView::Front { leaf: l.leaf, behind: l.behind },
                ));
                Builder { vertices, stack, task: Task::Build(in_front) }
            };
            *self = next.settle();
        }
        proof {
            assert(self@ == advance(m, ss));
            assert(self.vertices.len() == self@.vertices.len());
            lemma_advance_wf(m, ss);
        }
        Ok(())
    }

    /// The vertex arena as it stands. A vertex's handle is its index here.
    pub fn vertices(&self) -> (r: &Vec<Vertex>)
        ensures
            r@ == self@.vertices,
    {
        &self.vertices
    }

    /// Tells whether the tree is built.
    pub fn is_finished(&self) -> (r: bool)
        requires
            self.wf(),
        ensures
            r == finished(self@),
    {
        match &self.task {
            Task::Built(_) => true,
            Task::Build(_) => false,
        }
    }

    /// Hands out the tree and the arena once the tree is built.
    pub fn finish(self) -> (r: Result<(Option<Node>, Vec<Vertex>), BuildError>)
        requires
            self.wf(),
        ensures
            r is Ok <==> finished(self@),
            r is Err ==> r == Err::<(Option<Node>, Vec<Vertex>), BuildError>(
                BuildError::Unfinished,
            ),
            r matches Ok((root, vertices)) ==> {
                &&& self@.task == TaskView::Built(tree_of(root))
                &&& vertices@ == self@.vertices
                &&& arena_wf(vertices@)
                &&& tree_wf(tree_of(root), vertices@.len())
                &&& all_polygons(leaf_polygons(tree_of(root)))
            },
    {
        let Builder { vertices, stack, task } = self;
        match task {
            Task::Built(root) => {
                proof {
                    lemma_tree_polygons(tree_of(root), vertices@.len());
                }
                Ok((root, vertices))
            },
            Task::Build(_) => Err(BuildError::Unfinished),
        }
    }
}

impl Builder {
    /// Sets out to build the tree of `polygons`, whose vertices stand in `vertices`.
    /// The builder returned waits for the sides of the first level, or has finished
    /// if there are no polygons.
    pub fn new(polygons: Vec<Ngon>, vertices: Vec<Vertex>) -> (r: Builder)
        requires
            arena_wf(vertices@),
            ngons_wf(views(polygons@), vertices@.len()),
        ensures
            r@ == start(views(polygons@), vertices@),
            r.wf(),
    {
        let builder = Builder { vertices, stack: Vec::new(), task: Task::Build(polygons) };
        assert(builder@.stack =~= Seq::<FrameView>::empty());
        proof {
            assert(builder.vertices.len() == builder@.vertices.len());
            assert(machine_wf(builder@));
            lemma_settle_wf(builder@);
        }
        builder.settle()
    }
}

/// The values of a list of answers: the sides of one level after the other.
pub open spec fn answer_lists(answers: Seq<Vec<Vec<PointInt>>>) -> Seq<Seq<Seq<PointInt>>> {
    answers.map_values(|a: Vec<Vec<PointInt>>| side_lists(a@))
}

/// What is built from well-formed polygons is well formed, as long as the handles of
/// the arena fit the machine's word.
pub proof fn lemma_build_wf(
    polygons: Seq<NgonView>,
    answers: Seq<Seq<Seq<PointInt>>>,
    vertices: Seq<Vertex>,
)
    requires
        arena_wf(vertices),
        ngons_wf(polygons, vertices.len()),
        build(polygons, answers, vertices) matches Some(b) && b.vertices.len() <= usize::MAX,
    ensures
        arena_wf(build(polygons, answers, vertices).unwrap().vertices),
        tree_wf(
            build(polygons, answers, vertices).unwrap().tree,
            build(polygons, answers, vertices).unwrap().vertices.len(),
        ),
    decreases polygons.len(),
{
    let b = build(polygons, answers, vertices).unwrap();
    if polygons.len() > 0 {
        let l = level(polygons, answers[0], vertices.len());
        let grown = vertices + l.cuts;
        lemma_level_sizes(polygons, answers[0], vertices.len(), (polygons.len() - 1) as nat);
        lemma_leaf_per_level(polygons, answers, vertices);
        if l.front.len() == 0 && l.behind.len() == 0 {
            lemma_level_wf(polygons, answers[0], vertices, (polygons.len() - 1) as nat);
        } else {
            let f = build(l.front, answers.skip(1), grown).unwrap();
            lemma_leaf_per_level(l.front, answers.skip(1), grown);
            if l.behind.len() > 0 {
                lemma_leaf_per_level(l.behind, answers.skip((1 + f.used) as int), f.vertices);
            }
            lemma_level_wf(polygons, answers[0], vertices, (polygons.len() - 1) as nat);
            lemma_build_wf(l.front, answers.skip(1), grown);
            lemma_leaf_wf_grow(l.leaf, grown.len(), f.vertices.len());
            assert(tree_wf(Tree::Leaf(l.leaf), f.vertices.len()));
            if l.behind.len() > 0 {
                let later = answers.skip((1 + f.used) as int);
                let h = build(l.behind, later, f.vertices).unwrap();
                lemma_ngons_wf_grow(l.behind, grown.len(), f.vertices.len());
                lemma_build_wf(l.behind, later, f.vertices);
                lemma_tree_wf_grow(join_front(l.leaf, f.tree), f.vertices.len(), h.vertices.len());
            }
        }
    } else {
        assert(tree_wf(Tree::Absent, vertices.len()));
    }
}

impl Node {
    /// Builds the subtree of `polygons` from the answers that start at `at`, and tells
    /// where the answers of the next subtree start.
    fn grow(
        polygons: &Vec<Ngon>,
        answers: &Vec<Vec<Vec<PointInt>>>,
        at: usize,
        vertices: &mut Vec<Vertex>,
    ) -> (r: Option<(Option<Node>, usize)>)
        requires
            at <= answers@.len(),
            arena_wf(old(vertices)@),
            ngons_wf(views(polygons@), old(vertices)@.len()),
        ensures
            r is Some <==> build(
                views(polygons@),
                answer_lists(answers@).skip(at as int),
                old(vertices)@,
            ) is Some,
            r matches Some((root, next)) ==> {
                let b = build(
                    views(polygons@),
                    answer_lists(answers@).skip(at as int),
                    old(vertices)@,
                ).unwrap();
                &&& tree_of(root) == b.tree
                &&& next == at + b.used
                &&& next <= answers@.len()
                &&& final(vertices)@ == b.vertices
            },
        decreases polygons@.len(),
    {
        let ghost ps = views(polygons@);
        let ghost all = answer_lists(answers@);
        let ghost rest = all.skip(at as int);
        let ghost start = vertices@;
        if polygons.len() == 0 {
            return Some((None, at));
        }
        if at >= answers.len() {
            return None;
        }
        assert(rest[0] == side_lists(answers@[at as int]@));
        if !sides_fit(polygons, &answers[at]) {
            return None;
        }
        let ghost l = level(ps, rest[0], start.len());
        assert(ngon_wf(ps[0], start.len()));
        let (leaf, in_front, behind) = Node::partition(polygons, &answers[at], vertices);
        let ghost grown = vertices@;
        proof {
            assert(vertices.len() == grown.len());
            lemma_level_sizes(ps, rest[0], start.len(), (ps.len() - 1) as nat);
            lemma_level_wf(ps, rest[0], start, (ps.len() - 1) as nat);
            assert(rest.skip(1) =~= all.skip(at + 1));
        }
        let leaf_node = Some(Node::Leaf(Box::new(leaf)));
        if in_front.len() == 0 && behind.len() == 0 {
            return Some((leaf_node, at + 1));
        }
        let (front_node, next) = match Node::grow(&in_front, answers, at + 1, vertices) {
            None => {
                return None;
            },
            Some(built) => built,
        };
        let ghost f = build(l.front, rest.skip(1), grown).unwrap();
        let in_front_node = Some(
            Node::Split(Box::new(SplitNode { children: (leaf_node, front_node) })),
        );
        assert(tree_of(in_front_node) == join_front(l.leaf, f.tree)) by {
            reveal_with_fuel(tree_of, 3);
        }
        if behind.len() == 0 {
            return Some((in_front_node, next));
        }
        proof {
            assert(vertices.len() == f.vertices.len());
            lemma_leaf_per_level(l.front, rest.skip(1), grown);
            lemma_ngons_wf_grow(l.behind, grown.len(), f.vertices.len());
            lemma_build_wf(l.front, rest.skip(1), grown);
            assert(rest.skip((1 + f.used) as int) =~= all.skip(next as int));
        }
        let (behind_node, last) = match Node::grow(&behind, answers, next, vertices) {
            None => {
                return None;
            },
            Some(built) => built,
        };
        let root = Some(
            Node::Split(Box::new(SplitNode { children: (behind_node, in_front_node) })),
        );
        assert(tree_of(root) == join_behind(tree_of(behind_node), tree_of(in_front_node))) by {
            reveal_with_fuel(tree_of, 3);
        }
        Some((root, last))
    }

    /// Builds the tree of `polygons`, whose vertices stand in `vertices`, from the
    /// sides of each level, given in the order in which the levels are reached: a
    /// level, then all that lies in front of it, then all that lies behind. Returns
    /// the tree and the arena with the cuts made; nothing if an answer is missing or
    /// does not fit its level.
    pub fn create_node(
        polygons: &Vec<Ngon>,
        answers: &Vec<Vec<Vec<PointInt>>>,
        vertices: Vec<Vertex>,
    ) -> (r: Option<(Option<Node>, Vec<Vertex>)>)
        requires
            arena_wf(vertices@),
            ngons_wf(views(polygons@), vertices@.len()),
        ensures
            r is Some <==> build(views(polygons@), answer_lists(answers@), vertices@) is Some,
            r matches Some((root, grown)) ==> {
                let b = build(views(polygons@), answer_lists(answers@), vertices@).unwrap();
                &&& tree_of(root) == b.tree
                &&& grown@ == b.vertices
                &&& arena_wf(grown@)
                &&& tree_wf(tree_of(root), grown@.len())
                &&& all_polygons(leaf_polygons(tree_of(root)))
            },
    {
        let mut arena = vertices;
        assert(answer_lists(answers@).skip(0) =~= answer_lists(answers@));
        match Node::grow(polygons, answers, 0, &mut arena) {
            None => None,
            Some((root, _)) => {
                proof {
                    assert(arena.len() == arena@.len());
                    lemma_build_wf(views(polygons@), answer_lists(answers@), vertices@);
                    lemma_tree_polygons(tree_of(root), arena@.len());
                }
                Some((root, arena))
            },
        }
    }
}

} // verus!
