use bsp::flatten::{Candidate, Flattener};
use bsp::mesh::Ngon;
use bsp::tree::{LeafNode, Node, SplitNode};
use bsp::triangulate::{EdgeSigns, Projection, Turn};

use Turn::{Left, Right, Straight};

fn signs(ab: Turn, bc: Turn, ca: Turn) -> EdgeSigns {
    EdgeSigns { ab, bc, ca }
}

fn polygon(n: usize) -> Ngon {
    Ngon { v: (10..10 + n).collect(), norm: 7 }
}

fn tri(a: usize, b: usize, c: usize) -> Ngon {
    Ngon { v: vec![a, b, c], norm: 7 }
}

fn run(mut flattener: Flattener, ears: &[bool]) -> Flattener {
    for &ear in ears {
        assert!(flattener.answer(ear));
    }
    flattener
}

#[test]
fn projection_drops_the_axis_of_the_largest_component() {
    assert_eq!(Node::projection(true, true, false), Projection { u: 1, v: 2, dropped: 0 });
    assert_eq!(Node::projection(true, true, true), Projection { u: 1, v: 2, dropped: 0 });
    assert_eq!(Node::projection(true, false, true), Projection { u: 0, v: 1, dropped: 2 });
    assert_eq!(Node::projection(false, false, true), Projection { u: 0, v: 1, dropped: 2 });
    assert_eq!(Node::projection(false, true, false), Projection { u: 2, v: 0, dropped: 1 });
    assert_eq!(Node::projection(false, false, false), Projection { u: 2, v: 0, dropped: 1 });
}

#[test]
fn turn_follows_the_sign_of_the_cross_product() {
    assert_eq!(Turn::classify(true, false), Left);
    assert_eq!(Turn::classify(false, true), Right);
    assert_eq!(Turn::classify(false, false), Straight);
}

#[test]
fn candidate_that_turns_the_wrong_way_is_no_ear() {
    assert!(!Node::check_ear(true, false, &vec![]));
    assert!(!Node::check_ear(false, true, &vec![signs(Left, Right, Left)]));
}

#[test]
fn candidate_with_no_other_vertex_inside_is_an_ear() {
    assert!(Node::check_ear(true, true, &vec![]));
    assert!(Node::check_ear(false, false, &vec![]));
    assert!(Node::check_ear(
        true,
        true,
        &vec![signs(Left, Left, Right), signs(Right, Left, Right), signs(Left, Right, Right)]
    ));
}

#[test]
fn candidate_with_a_vertex_strictly_inside_is_no_ear() {
    assert!(!Node::check_ear(true, true, &vec![signs(Left, Right, Left), signs(Left, Left, Left)]));
    assert!(!Node::check_ear(false, false, &vec![signs(Right, Right, Right)]));
    assert!(!Node::check_ear(false, false, &vec![signs(Left, Right, Right), signs(Right, Right, Right)]));
}

#[test]
fn vertex_on_the_line_of_an_edge_is_not_inside() {
    // on an edge of a clockwise candidate, and of a counter-clockwise one
    assert!(Node::check_ear(false, false, &vec![signs(Right, Straight, Right)]));
    assert!(Node::check_ear(true, true, &vec![signs(Left, Straight, Left)]));
    // on a corner
    assert!(Node::check_ear(true, true, &vec![signs(Straight, Straight, Left)]));
    // on the lines of all three edges, which meet for a candidate without area only
    assert!(Node::check_ear(false, false, &vec![signs(Straight, Straight, Straight)]));
}

#[test]
fn triangle_is_its_own_triangulation() {
    let flattener = Flattener::new(vec![polygon(3)]);
    assert!(flattener.is_finished());
    assert!(flattener.candidate().is_none());
    assert_eq!(flattener.finish(), Some(vec![tri(10, 11, 12)]));
}

#[test]
fn first_candidate_starts_at_the_first_vertex() {
    let flattener = Flattener::new(vec![polygon(5)]);
    assert_eq!(
        flattener.candidate(),
        Some(Candidate { a: 10, b: 11, c: 12, others: vec![13, 14], normal: 7 })
    );
    assert_eq!(flattener.finish(), None);
}

#[test]
fn candidates_wrap_around_the_cycle() {
    let flattener = run(Flattener::new(vec![polygon(4)]), &[false, false]);
    assert_eq!(
        flattener.candidate(),
        Some(Candidate { a: 12, b: 13, c: 10, others: vec![11], normal: 7 })
    );
    let flattener = run(flattener, &[false]);
    assert_eq!(
        flattener.candidate(),
        Some(Candidate { a: 13, b: 10, c: 11, others: vec![12], normal: 7 })
    );
}

#[test]
fn convex_polygon_is_cut_into_its_fan() {
    let flattener = run(Flattener::new(vec![polygon(6)]), &[true, true, true]);
    assert!(flattener.is_finished());
    assert_eq!(
        flattener.finish(),
        Some(vec![tri(10, 11, 12), tri(10, 12, 13), tri(10, 13, 14), tri(10, 14, 15)])
    );
}

#[test]
fn search_starts_over_after_each_ear() {
    let flattener = run(Flattener::new(vec![polygon(5)]), &[false, true]);
    // the middle vertex of the ear has left the cycle, and the search is back at the front
    assert_eq!(
        flattener.candidate(),
        Some(Candidate { a: 10, b: 11, c: 13, others: vec![14], normal: 7 })
    );
    let flattener = run(flattener, &[true]);
    assert_eq!(flattener.finish(), Some(vec![tri(11, 12, 13), tri(10, 11, 13), tri(10, 13, 14)]));
}

#[test]
fn ear_at_the_end_of_the_cycle_removes_the_first_vertex() {
    let flattener = run(Flattener::new(vec![polygon(4)]), &[false, false, false, true]);
    assert_eq!(flattener.finish(), Some(vec![tri(13, 10, 11), tri(11, 12, 13)]));
}

#[test]
fn polygon_without_an_ear_yields_its_first_three_vertices() {
    let mut flattener = run(Flattener::new(vec![polygon(4)]), &[false, false, false, false]);
    assert!(flattener.is_finished());
    assert!(!flattener.answer(true));
    assert_eq!(flattener.finish(), Some(vec![tri(10, 11, 12)]));
}

#[test]
fn search_that_fails_after_an_ear_ends_with_the_first_three_left() {
    let flattener =
        run(Flattener::new(vec![polygon(5)]), &[true, false, false, false, false]);
    assert_eq!(flattener.finish(), Some(vec![tri(10, 11, 12), tri(10, 12, 13)]));
}

#[test]
fn leaves_are_visited_child_zero_first() {
    let leaf = |contents: Vec<Ngon>| {
        Some(Node::Leaf(Box::new(LeafNode { contents, portals: vec![] })))
    };
    let split = |a, b| Some(Node::Split(Box::new(SplitNode { children: (a, b) })));
    let root = split(
        leaf(vec![tri(0, 1, 2), tri(3, 4, 5)]),
        split(split(None, leaf(vec![tri(6, 7, 8)])), leaf(vec![tri(9, 10, 11)])),
    );
    assert_eq!(
        Node::polygons(&root),
        vec![tri(0, 1, 2), tri(3, 4, 5), tri(6, 7, 8), tri(9, 10, 11)]
    );
    assert_eq!(
        Node::to_stl(root).finish(),
        Some(vec![tri(0, 1, 2), tri(3, 4, 5), tri(6, 7, 8), tri(9, 10, 11)])
    );
}

#[test]
fn polygons_are_cut_one_after_the_other() {
    let quad = Ngon { v: vec![0, 1, 2, 3], norm: 1 };
    let pentagon = Ngon { v: vec![4, 5, 6, 7, 8], norm: 2 };
    let flattener = Flattener::new(vec![quad, tri(20, 21, 22), pentagon]);
    assert_eq!(flattener.candidate().unwrap().normal, 1);
    let flattener = run(flattener, &[true]);
    // the quad is done, the triangle needed no judgement, the pentagon is at hand
    assert_eq!(
        flattener.candidate(),
        Some(Candidate { a: 4, b: 5, c: 6, others: vec![7, 8], normal: 2 })
    );
    let flattener = run(flattener, &[true, true]);
    assert_eq!(
        flattener.finish(),
        Some(vec![
            Ngon { v: vec![0, 1, 2], norm: 1 },
            Ngon { v: vec![0, 2, 3], norm: 1 },
            tri(20, 21, 22),
            Ngon { v: vec![4, 5, 6], norm: 2 },
            Ngon { v: vec![4, 6, 7], norm: 2 },
            Ngon { v: vec![4, 7, 8], norm: 2 },
        ])
    );
}

#[test]
fn absent_tree_flattens_to_nothing() {
    assert_eq!(Node::polygons(&None), vec![]);
    let flattener = Node::to_stl(None);
    assert!(flattener.is_finished());
    assert_eq!(flattener.finish(), Some(vec![]));
    assert_eq!(Node::flatten(&None, &vec![]), Some(vec![]));
    assert_eq!(Node::flatten(&None, &vec![true]), Some(vec![]));
}

#[test]
fn given_the_judgements_a_polygon_is_cut_at_once() {
    assert_eq!(Node::triangulate_polygon(&polygon(3), &vec![]), Some(vec![tri(10, 11, 12)]));
    assert_eq!(
        Node::triangulate_polygon(&polygon(5), &vec![false, true, true]),
        Some(vec![tri(11, 12, 13), tri(10, 11, 13), tri(10, 13, 14)])
    );
    // judgements beyond the last one needed are not looked at
    assert_eq!(
        Node::triangulate_polygon(&polygon(4), &vec![true, false, false]),
        Some(vec![tri(10, 11, 12), tri(10, 12, 13)])
    );
    // a search that fails
    assert_eq!(
        Node::triangulate_polygon(&polygon(4), &vec![false; 4]),
        Some(vec![tri(10, 11, 12)])
    );
}

#[test]
fn judgements_that_run_out_cut_nothing() {
    assert_eq!(Node::triangulate_polygon(&polygon(4), &vec![]), None);
    assert_eq!(Node::triangulate_polygon(&polygon(6), &vec![true, true]), None);
    assert_eq!(Node::triangulate_polygon(&polygon(4), &vec![false, false, false]), None);
    assert_eq!(Node::triangulate(vec![polygon(4), polygon(4)], &vec![true]), None);
}

#[test]
fn given_the_judgements_a_tree_is_flattened_at_once() {
    let quad = Ngon { v: vec![0, 1, 2, 3], norm: 1 };
    let pentagon = Ngon { v: vec![4, 5, 6, 7, 8], norm: 2 };
    let root = Some(Node::Split(Box::new(SplitNode {
        children: (
            Some(Node::Leaf(Box::new(LeafNode { contents: vec![pentagon], portals: vec![] }))),
            Some(Node::Leaf(Box::new(LeafNode {
                contents: vec![tri(20, 21, 22), quad],
                portals: vec![],
            }))),
        ),
    })));
    assert_eq!(
        Node::flatten(&root, &vec![true, true, false, true]),
        Some(vec![
            Ngon { v: vec![4, 5, 6], norm: 2 },
            Ngon { v: vec![4, 6, 7], norm: 2 },
            Ngon { v: vec![4, 7, 8], norm: 2 },
            tri(20, 21, 22),
            Ngon { v: vec![1, 2, 3], norm: 1 },
            Ngon { v: vec![0, 1, 3], norm: 1 },
        ])
    );
    assert_eq!(Node::flatten(&root, &vec![true, true, false]), None);
}
