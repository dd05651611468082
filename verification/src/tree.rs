//! The partition tree.
use vstd::prelude::*;
use crate::mesh::{id_lists, ngon_wf, ngons_wf, views, Ngon, NgonView, VertexId};

verus! {

/// A node of the partition tree.
#[derive(Debug, PartialEq, Eq)]
pub enum Node {
    Split(Box<SplitNode>),
    Leaf(Box<LeafNode>),
}

/// An inner node. Child 0 is visited before child 1; either may be absent.
#[derive(Debug, PartialEq, Eq)]
pub struct SplitNode {
    pub children: (Option<Node>, Option<Node>),
}

/// The polygons that lie in one splitting plane, and the portals: for each polygon
/// that was held against that plane and does not lie in it, the vertices it has in
/// the plane.
#[derive(Debug, PartialEq, Eq)]
pub struct LeafNode {
    pub contents: Vec<Ngon>,
    pub portals: Vec<Vec<VertexId>>,
}

/// The mathematical value of a [`LeafNode`].
pub struct LeafView {
    pub contents: Seq<NgonView>,
    pub portals: Seq<Seq<VertexId>>,
}

impl View for LeafNode {
    type V = LeafView;

    open spec fn view(&self) -> LeafView {
        LeafView { contents: views(self.contents@), portals: id_lists(self.portals@) }
    }
}

/// The mathematical value of a subtree that may be absent.
pub enum Tree {
    Absent,
    Leaf(LeafView),
    Split(Box<Tree>, Box<Tree>),
}

/// The value of a subtree.
pub open spec fn tree_of(node: Option<Node>) -> Tree
    decreases node,
{
    match node {
        None => Tree::Absent,
        Some(Node::Leaf(leaf)) => Tree::Leaf(leaf@),
        Some(Node::Split(split)) => Tree::Split(
            Box::new(tree_of(split.children.0)),
            Box::new(tree_of(split.children.1)),
        ),
    }
}

impl View for Node {
    type V = Tree;

    open spec fn view(&self) -> Tree {
        tree_of(Some(*self))
    }
}

/// Every portal names vertices of an arena of `bound` vertices only.
pub open spec fn portals_wf(portals: Seq<Seq<VertexId>>, bound: nat) -> bool {
    forall|k: int, i: int|
        0 <= k < portals.len() && 0 <= i < portals[k].len() ==> (#[trigger] portals[k][i]) < bound
}

/// A leaf holds at least one polygon, and all it holds is well formed.
pub open spec fn leaf_wf(leaf: LeafView, bound: nat) -> bool {
    &&& leaf.contents.len() >= 1
    &&& ngons_wf(leaf.contents, bound)
    &&& portals_wf(leaf.portals, bound)
}

/// Every leaf of the tree is well formed in an arena of `bound` vertices.
pub open spec fn tree_wf(tree: Tree, bound: nat) -> bool
    decreases tree,
{
    match tree {
        Tree::Absent => true,
        Tree::Leaf(leaf) => leaf_wf(leaf, bound),
        Tree::Split(a, b) => tree_wf(*a, bound) && tree_wf(*b, bound),
    }
}

/// A polygon that is well formed in an arena stays so when the arena grows.
pub proof fn lemma_ngons_wf_grow(polygons: Seq<NgonView>, bound: nat, more: nat)
    requires
        ngons_wf(polygons, bound),
        bound <= more,
    ensures
        ngons_wf(polygons, more),
{
    assert forall|k: int| 0 <= k < polygons.len() implies ngon_wf(#[trigger] polygons[k], more) by {
        assert(ngon_wf(polygons[k], bound));
    }
}

/// A leaf that is well formed in an arena stays so when the arena grows.
pub proof fn lemma_leaf_wf_grow(leaf: LeafView, bound: nat, more: nat)
    requires
        leaf_wf(leaf, bound),
        bound <= more,
    ensures
        leaf_wf(leaf, more),
{
    lemma_ngons_wf_grow(leaf.contents, bound, more);
}

/// A tree that is well formed in an arena stays so when the arena grows.
pub proof fn lemma_tree_wf_grow(tree: Tree, bound: nat, more: nat)
    requires
        tree_wf(tree, bound),
        bound <= more,
    ensures
        tree_wf(tree, more),
    decreases tree,
{
    match tree {
        Tree::Absent => {},
        Tree::Leaf(leaf) => {
            lemma_leaf_wf_grow(leaf, bound, more);
        },
        Tree::Split(a, b) => {
            lemma_tree_wf_grow(*a, bound, more);
            lemma_tree_wf_grow(*b, bound, more);
        },
    }
}

} // verus!
