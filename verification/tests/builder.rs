use bsp::builder::{BuildError, Builder};
use bsp::mesh::{Ngon, PlaneTri, Vertex};
use bsp::split::PointInt;
use bsp::tree::{LeafNode, Node, SplitNode};

use PointInt::{Behind, InFront, OnPlane};

fn corners(n: usize) -> Vec<Vertex> {
    (0..n).map(|i| Vertex::Corner { position: i, texture: None }).collect()
}

fn triangle(first: usize) -> Ngon {
    Ngon { v: vec![first, first + 1, first + 2], norm: first / 3 }
}

fn triangles(count: usize) -> Vec<Ngon> {
    (0..count).map(|k| triangle(3 * k)).collect()
}

fn start(count: usize) -> Builder {
    Builder::new(triangles(count), corners(3 * count))
}

/// Builds on the machine, one answer after the other.
fn run(count: usize, answers: &[Vec<Vec<PointInt>>]) -> (Option<Node>, Vec<Vertex>) {
    let mut builder = start(count);
    for answer in answers {
        assert_eq!(builder.advance(answer), Ok(()));
    }
    builder.finish().unwrap()
}

fn leaf(contents: Vec<Ngon>, portals: Vec<Vec<usize>>) -> Option<Node> {
    Some(Node::Leaf(Box::new(LeafNode { contents, portals })))
}

fn split(a: Option<Node>, b: Option<Node>) -> Option<Node> {
    Some(Node::Split(Box::new(SplitNode { children: (a, b) })))
}

#[test]
fn no_polygons_no_tree() {
    let builder = start(0);
    assert!(builder.is_finished());
    assert!(builder.request().is_none());
    let (root, vertices) = builder.finish().unwrap();
    assert_eq!(root, None);
    assert!(vertices.is_empty());
}

#[test]
fn single_polygon_is_a_leaf() {
    let mut builder = start(1);
    let request = builder.request().unwrap();
    assert_eq!(request.plane, PlaneTri { a: 0, b: 1, c: 2 });
    assert!(request.polygons.is_empty());
    assert_eq!(builder.advance(&vec![]), Ok(()));
    assert!(builder.is_finished());
    let (root, vertices) = builder.finish().unwrap();
    assert_eq!(root, leaf(vec![triangle(0)], vec![]));
    assert_eq!(vertices, corners(3));
}

#[test]
fn request_names_the_polygons_after_the_first() {
    let builder = start(3);
    let request = builder.request().unwrap();
    assert_eq!(request.plane, PlaneTri { a: 0, b: 1, c: 2 });
    assert_eq!(request.polygons, vec![vec![3, 4, 5], vec![6, 7, 8]]);
}

#[test]
fn front_only_nests_leaf_before_front() {
    let mut builder = start(2);
    assert_eq!(builder.advance(&vec![vec![InFront, OnPlane, InFront]]), Ok(()));
    let request = builder.request().unwrap();
    assert_eq!(request.plane, PlaneTri { a: 3, b: 4, c: 5 });
    assert_eq!(builder.advance(&vec![]), Ok(()));
    let (root, _) = builder.finish().unwrap();
    assert_eq!(
        root,
        split(leaf(vec![triangle(0)], vec![vec![4]]), leaf(vec![triangle(3)], vec![]))
    );
}

#[test]
fn behind_only_nests_behind_before_leaf_and_absent_front() {
    let mut builder = start(2);
    assert_eq!(builder.advance(&vec![vec![Behind, Behind, Behind]]), Ok(()));
    assert_eq!(builder.advance(&vec![]), Ok(()));
    let (root, _) = builder.finish().unwrap();
    assert_eq!(
        root,
        split(
            leaf(vec![triangle(3)], vec![]),
            split(leaf(vec![triangle(0)], vec![vec![]]), None),
        )
    );
}

#[test]
fn front_is_built_before_behind_and_behind_is_the_outer_sibling() {
    let mut builder = start(3);
    assert_eq!(
        builder.advance(&vec![vec![InFront, InFront, InFront], vec![Behind, Behind, Behind]]),
        Ok(())
    );
    // The front comes first.
    assert_eq!(builder.request().unwrap().plane, PlaneTri { a: 3, b: 4, c: 5 });
    assert_eq!(builder.advance(&vec![]), Ok(()));
    assert_eq!(builder.request().unwrap().plane, PlaneTri { a: 6, b: 7, c: 8 });
    assert_eq!(builder.advance(&vec![]), Ok(()));
    let (root, _) = builder.finish().unwrap();
    assert_eq!(
        root,
        split(
            leaf(vec![triangle(6)], vec![]),
            split(
                leaf(vec![triangle(0)], vec![vec![], vec![]]),
                leaf(vec![triangle(3)], vec![]),
            ),
        )
    );
}

#[test]
fn coplanar_polygon_joins_the_leaf_and_leaves_no_portal() {
    let mut builder = start(3);
    assert_eq!(
        builder.advance(&vec![vec![OnPlane, OnPlane, OnPlane], vec![InFront, InFront, OnPlane]]),
        Ok(())
    );
    assert_eq!(builder.advance(&vec![]), Ok(()));
    let (root, _) = builder.finish().unwrap();
    assert_eq!(
        root,
        split(
            leaf(vec![triangle(0), triangle(3)], vec![vec![8]]),
            leaf(vec![triangle(6)], vec![]),
        )
    );
}

#[test]
fn split_polygon_sends_its_front_part_in_front_and_its_behind_part_behind() {
    let mut builder = start(2);
    assert_eq!(builder.advance(&vec![vec![InFront, Behind, Behind]]), Ok(()));
    // Two cuts were made, on the edges 5-3 and 3-4.
    let plane = PlaneTri { a: 0, b: 1, c: 2 };
    assert_eq!(builder.vertices().len(), 8);
    assert_eq!(builder.vertices()[6], Vertex::Cut { plane, from: 5, to: 3 });
    assert_eq!(builder.vertices()[7], Vertex::Cut { plane, from: 3, to: 4 });
    // The front part is asked about first: its plane is that of its first three vertices.
    assert_eq!(builder.request().unwrap().plane, PlaneTri { a: 6, b: 3, c: 7 });
    assert_eq!(builder.advance(&vec![]), Ok(()));
    assert_eq!(builder.request().unwrap().plane, PlaneTri { a: 6, b: 7, c: 4 });
    assert_eq!(builder.advance(&vec![]), Ok(()));
    let (root, _) = builder.finish().unwrap();
    let front = Ngon { v: vec![6, 3, 7], norm: 1 };
    let behind = Ngon { v: vec![6, 7, 4, 5], norm: 1 };
    assert_eq!(
        root,
        split(
            leaf(vec![behind], vec![]),
            split(leaf(vec![triangle(0)], vec![vec![6, 7]]), leaf(vec![front], vec![])),
        )
    );
}

#[test]
fn sides_that_do_not_fit_are_turned_down() {
    let mut builder = start(2);
    // no list for the second polygon
    assert_eq!(builder.advance(&vec![]), Err(BuildError::SidesMisfit));
    // a list too many
    assert_eq!(
        builder.advance(&vec![vec![InFront; 3], vec![InFront; 3]]),
        Err(BuildError::SidesMisfit)
    );
    // a side too few
    assert_eq!(builder.advance(&vec![vec![InFront; 2]]), Err(BuildError::SidesMisfit));
    // nothing has changed
    assert_eq!(builder.request().unwrap().polygons, vec![vec![3, 4, 5]]);
    assert_eq!(builder.vertices().len(), 6);
    assert_eq!(builder.advance(&vec![vec![InFront; 3]]), Ok(()));
}

#[test]
fn finished_builder_takes_no_sides() {
    let mut builder = start(1);
    assert_eq!(builder.advance(&vec![]), Ok(()));
    assert_eq!(builder.advance(&vec![]), Err(BuildError::NothingPending));
    let (root, _) = builder.finish().unwrap();
    assert_eq!(root, leaf(vec![triangle(0)], vec![]));
}

#[test]
fn unfinished_builder_hands_out_no_tree() {
    let builder = start(1);
    assert!(!builder.is_finished());
    assert_eq!(builder.finish().err(), Some(BuildError::Unfinished));
}

#[test]
fn partition_gives_leaf_front_and_behind_of_one_level() {
    let polygons = vec![triangle(0), triangle(3), triangle(6), triangle(9)];
    let mut vertices = corners(12);
    let sides = vec![vec![Behind; 3], vec![OnPlane; 3], vec![InFront, InFront, Behind]];
    let (leaf, front, behind) = Node::partition(&polygons, &sides, &mut vertices);
    assert_eq!(leaf.contents, vec![triangle(0), triangle(6)]);
    assert_eq!(leaf.portals, vec![vec![], vec![12, 13]]);
    assert_eq!(front, vec![Ngon { v: vec![12, 9, 10, 13], norm: 3 }]);
    assert_eq!(behind, vec![triangle(3), Ngon { v: vec![12, 13, 11], norm: 3 }]);
    assert_eq!(vertices.len(), 14);
}

#[test]
fn recursion_builds_what_the_machine_builds() {
    let answers = vec![
        vec![vec![InFront, Behind, Behind], vec![Behind; 3], vec![OnPlane; 3], vec![InFront; 3]],
        // in front: the front part of the first polygon, then the last polygon
        vec![vec![Behind, OnPlane, InFront]],
        vec![],
        vec![],
        // behind: the behind part of the first polygon, then the second polygon
        vec![vec![InFront; 3]],
        vec![],
    ];
    let (root, vertices) = run(5, &answers);
    assert_eq!(vertices.len(), 19);
    assert_eq!(
        Node::create_node(&triangles(5), &answers, corners(15)),
        Some((root, vertices))
    );
}

#[test]
fn recursion_follows_the_nesting_convention() {
    let answers = vec![vec![vec![InFront; 3], vec![Behind; 3]], vec![], vec![]];
    let (root, vertices) = Node::create_node(&triangles(3), &answers, corners(9)).unwrap();
    assert_eq!(vertices, corners(9));
    assert_eq!(
        root,
        split(
            leaf(vec![triangle(6)], vec![]),
            split(
                leaf(vec![triangle(0)], vec![vec![], vec![]]),
                leaf(vec![triangle(3)], vec![]),
            ),
        )
    );
}

#[test]
fn recursion_without_polygons_needs_no_answer() {
    assert_eq!(Node::create_node(&vec![], &vec![], corners(2)), Some((None, corners(2))));
}

#[test]
fn recursion_ignores_answers_beyond_the_last_level() {
    let answers = vec![vec![], vec![vec![InFront; 3]]];
    assert_eq!(
        Node::create_node(&triangles(1), &answers, corners(3)),
        Some((leaf(vec![triangle(0)], vec![]), corners(3)))
    );
}

#[test]
fn recursion_builds_nothing_from_missing_or_misfit_answers() {
    // the level in front has no answer
    assert_eq!(Node::create_node(&triangles(2), &vec![vec![vec![InFront; 3]]], corners(6)), None);
    // no answer at all
    assert_eq!(Node::create_node(&triangles(1), &vec![], corners(3)), None);
    // a side too many
    assert_eq!(
        Node::create_node(&triangles(2), &vec![vec![vec![InFront; 4]], vec![]], corners(6)),
        None
    );
    // the answer of the second level does not fit it
    assert_eq!(
        Node::create_node(&triangles(2), &vec![vec![vec![InFront; 3]], vec![vec![]]], corners(6)),
        None
    );
}

#[test]
fn polygons_that_keep_to_one_side_each_get_a_leaf() {
    let answers = vec![
        vec![vec![InFront, OnPlane, OnPlane], vec![Behind; 3], vec![OnPlane, InFront, InFront]],
        // in front: the second and the fourth polygon
        vec![vec![Behind, OnPlane, Behind]],
        vec![],
        // behind: the third polygon
        vec![],
    ];
    let (root, vertices) = Node::create_node(&triangles(4), &answers, corners(12)).unwrap();
    assert_eq!(vertices, corners(12));
    assert_eq!(
        root,
        split(
            leaf(vec![triangle(6)], vec![]),
            split(
                leaf(vec![triangle(0)], vec![vec![4, 5], vec![], vec![9]]),
                split(
                    leaf(vec![triangle(9)], vec![]),
                    split(leaf(vec![triangle(3)], vec![vec![10]]), None),
                ),
            ),
        )
    );
    let mut found: Vec<usize> = Node::polygons(&root).iter().map(|p| p.norm).collect();
    found.sort();
    assert_eq!(found, vec![0, 1, 2, 3]);
}
