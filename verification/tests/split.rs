use bsp::mesh::{Ngon, PlaneTri, Vertex};
use bsp::split::{Intersection, PointInt};
use bsp::tree::Node;

use PointInt::{Behind, InFront, OnPlane};

fn corners(n: usize) -> Vec<Vertex> {
    (0..n).map(|i| Vertex::Corner { position: i, texture: Some(i) }).collect()
}

fn plane() -> PlaneTri {
    PlaneTri { a: 0, b: 1, c: 2 }
}

#[test]
fn polygon_in_the_plane_is_left_whole() {
    let mut vertices = corners(4);
    let polygon = Ngon { v: vec![0, 1, 2, 3], norm: 0 };
    let sides = vec![OnPlane; 4];
    let (kind, portal) = Node::intersect(&polygon, &sides, plane(), &mut vertices);
    assert_eq!(kind, Intersection::OnPlane);
    assert_eq!(portal, vec![0, 1, 2, 3]);
    assert_eq!(vertices, corners(4));
}

#[test]
fn polygon_without_vertices_is_on_the_plane() {
    let mut vertices = corners(3);
    let polygon = Ngon { v: vec![], norm: 2 };
    let (kind, portal) = Node::intersect(&polygon, &vec![], plane(), &mut vertices);
    assert_eq!(kind, Intersection::OnPlane);
    assert_eq!(portal, Vec::<usize>::new());
    assert_eq!(vertices.len(), 3);
}

#[test]
fn square_crossed_in_the_middle_is_split_in_two_quads() {
    let mut vertices = corners(4);
    let polygon = Ngon { v: vec![0, 1, 2, 3], norm: 9 };
    let sides = vec![Behind, InFront, InFront, Behind];
    let (kind, portal) = Node::intersect(&polygon, &sides, plane(), &mut vertices);
    assert_eq!(
        kind,
        Intersection::Split(
            Ngon { v: vec![4, 1, 2, 5], norm: 9 },
            Ngon { v: vec![0, 4, 5, 3], norm: 9 },
        )
    );
    assert_eq!(portal, vec![4, 5]);
    assert_eq!(vertices.len(), 6);
    assert_eq!(vertices[4], Vertex::Cut { plane: plane(), from: 0, to: 1 });
    assert_eq!(vertices[5], Vertex::Cut { plane: plane(), from: 2, to: 3 });
}

#[test]
fn cut_on_the_closing_edge_comes_first() {
    // The boundary arrives at vertex 0 from the last vertex, which lies behind.
    let mut vertices = corners(4);
    let polygon = Ngon { v: vec![0, 1, 2, 3], norm: 0 };
    let sides = vec![InFront, InFront, Behind, Behind];
    let (kind, portal) = Node::intersect(&polygon, &sides, plane(), &mut vertices);
    assert_eq!(
        kind,
        Intersection::Split(
            Ngon { v: vec![4, 0, 1, 5], norm: 0 },
            Ngon { v: vec![4, 5, 2, 3], norm: 0 },
        )
    );
    assert_eq!(portal, vec![4, 5]);
    assert_eq!(vertices[4], Vertex::Cut { plane: plane(), from: 3, to: 0 });
    assert_eq!(vertices[5], Vertex::Cut { plane: plane(), from: 1, to: 2 });
}

#[test]
fn vertex_in_the_plane_joins_portal_and_running_side() {
    let mut vertices = corners(3);
    let polygon = Ngon { v: vec![0, 1, 2], norm: 1 };
    let sides = vec![InFront, OnPlane, Behind];
    let (kind, portal) = Node::intersect(&polygon, &sides, plane(), &mut vertices);
    assert_eq!(
        kind,
        Intersection::Split(
            Ngon { v: vec![3, 0, 1, 4], norm: 1 },
            Ngon { v: vec![3, 4, 2], norm: 1 },
        )
    );
    assert_eq!(portal, vec![3, 1, 4]);
    // The second cut is made on the edge that arrives at vertex 2, which starts at
    // the vertex in the plane.
    assert_eq!(vertices[3], Vertex::Cut { plane: plane(), from: 2, to: 0 });
    assert_eq!(vertices[4], Vertex::Cut { plane: plane(), from: 1, to: 2 });
}

#[test]
fn polygon_touching_the_plane_from_the_front_is_in_front() {
    let mut vertices = corners(3);
    let polygon = Ngon { v: vec![0, 1, 2], norm: 0 };
    let sides = vec![InFront, OnPlane, InFront];
    let (kind, portal) = Node::intersect(&polygon, &sides, plane(), &mut vertices);
    assert_eq!(kind, Intersection::InFront);
    assert_eq!(portal, vec![1]);
    assert_eq!(vertices.len(), 3);
}

#[test]
fn polygon_behind_has_no_portal() {
    let mut vertices = corners(3);
    let polygon = Ngon { v: vec![2, 1, 0], norm: 0 };
    let sides = vec![Behind, Behind, Behind];
    let (kind, portal) = Node::intersect(&polygon, &sides, plane(), &mut vertices);
    assert_eq!(kind, Intersection::Behind);
    assert!(portal.is_empty());
    assert_eq!(vertices.len(), 3);
}

#[test]
fn boundary_starts_on_the_side_of_the_last_vertex_off_the_plane() {
    // The last vertex lies in the plane; the one before it lies behind.
    let mut vertices = corners(4);
    let polygon = Ngon { v: vec![0, 1, 2, 3], norm: 0 };
    let sides = vec![OnPlane, InFront, Behind, OnPlane];
    let (kind, portal) = Node::intersect(&polygon, &sides, plane(), &mut vertices);
    assert_eq!(
        kind,
        Intersection::Split(
            Ngon { v: vec![4, 1, 5], norm: 0 },
            Ngon { v: vec![0, 4, 5, 2, 3], norm: 0 },
        )
    );
    assert_eq!(portal, vec![0, 4, 5, 3]);
    assert_eq!(vertices[4], Vertex::Cut { plane: plane(), from: 0, to: 1 });
    assert_eq!(vertices[5], Vertex::Cut { plane: plane(), from: 1, to: 2 });
}

#[test]
fn zigzag_polygon_is_cut_at_every_change_of_side() {
    let mut vertices = corners(4);
    let polygon = Ngon { v: vec![0, 1, 2, 3], norm: 0 };
    let sides = vec![InFront, Behind, InFront, Behind];
    let (kind, portal) = Node::intersect(&polygon, &sides, plane(), &mut vertices);
    assert_eq!(
        kind,
        Intersection::Split(
            Ngon { v: vec![4, 0, 5, 6, 2, 7], norm: 0 },
            Ngon { v: vec![4, 5, 1, 6, 7, 3], norm: 0 },
        )
    );
    assert_eq!(portal, vec![4, 5, 6, 7]);
    assert_eq!(vertices.len(), 8);
}

#[test]
fn point_within_the_tolerance_is_on_the_plane() {
    assert_eq!(PointInt::classify(true, false), OnPlane);
    assert_eq!(PointInt::classify(true, true), OnPlane);
    assert_eq!(PointInt::classify(false, true), Behind);
    assert_eq!(PointInt::classify(false, false), InFront);
}
