use bsp::ingest::{Face, Fault, IngestError, Mesh};
use bsp::mesh::{PlaneTri, Vertex};
use bsp::tree::Node;

fn mesh(faces: Vec<Face>) -> Mesh {
    Mesh { positions: 5, tex_coords: 4, normals: 2, faces }
}

fn fault(faces: Vec<Face>) -> IngestError {
    Node::from_obj(&mesh(faces)).err().unwrap()
}

fn good() -> Face {
    Face::PN(vec![(0, 0), (1, 0), (2, 0)])
}

#[test]
fn face_with_texture_makes_a_textured_vertex_for_each_corner() {
    let builder =
        Node::from_obj(&mesh(vec![Face::PTN(vec![(4, 3, 1), (0, 2, 0), (2, 0, 0), (1, 1, 1)])]))
            .unwrap();
    assert_eq!(
        builder.vertices(),
        &vec![
            Vertex::Corner { position: 4, texture: Some(3) },
            Vertex::Corner { position: 0, texture: Some(2) },
            Vertex::Corner { position: 2, texture: Some(0) },
            Vertex::Corner { position: 1, texture: Some(1) },
        ]
    );
    let mut builder = builder;
    assert_eq!(builder.advance(&vec![]), Ok(()));
    let (root, _) = builder.finish().unwrap();
    let polygons = Node::polygons(&root);
    assert_eq!(polygons.len(), 1);
    assert_eq!(polygons[0].v, vec![0, 1, 2, 3]);
    // the normal is that of the first corner
    assert_eq!(polygons[0].norm, 1);
}

#[test]
fn face_without_texture_makes_untextured_vertices() {
    let builder = Node::from_obj(&mesh(vec![Face::PN(vec![(3, 1), (2, 0), (1, 0)])])).unwrap();
    assert_eq!(
        builder.vertices(),
        &vec![
            Vertex::Corner { position: 3, texture: None },
            Vertex::Corner { position: 2, texture: None },
            Vertex::Corner { position: 1, texture: None },
        ]
    );
}

#[test]
fn faces_share_no_vertex() {
    let builder = Node::from_obj(&mesh(vec![good(), good()])).unwrap();
    assert_eq!(builder.vertices().len(), 6);
    let request = builder.request().unwrap();
    assert_eq!(request.plane, PlaneTri { a: 0, b: 1, c: 2 });
    assert_eq!(request.polygons, vec![vec![3, 4, 5]]);
}

#[test]
fn mesh_without_faces_is_finished_at_once() {
    let builder = Node::from_obj(&mesh(vec![])).unwrap();
    assert!(builder.is_finished());
    let (root, vertices) = builder.finish().unwrap();
    assert_eq!(root, None);
    assert!(vertices.is_empty());
}

#[test]
fn face_without_normals_is_unsupported() {
    assert_eq!(fault(vec![Face::P(vec![0, 1, 2])]), IngestError { face: 0, fault: Fault::Unsupported });
    assert_eq!(
        fault(vec![good(), Face::PT(vec![(0, 0), (1, 1), (2, 2)])]),
        IngestError { face: 1, fault: Fault::Unsupported }
    );
}

#[test]
fn face_with_two_corners_has_too_few_vertices() {
    assert_eq!(
        fault(vec![Face::PN(vec![(0, 0), (1, 0)])]),
        IngestError { face: 0, fault: Fault::TooFewVertices }
    );
    assert_eq!(
        fault(vec![Face::PTN(vec![])]),
        IngestError { face: 0, fault: Fault::TooFewVertices }
    );
}

#[test]
fn indices_outside_the_mesh_are_faults() {
    assert_eq!(
        fault(vec![Face::PN(vec![(0, 2), (1, 0), (2, 0)])]),
        IngestError { face: 0, fault: Fault::NormalOutOfRange }
    );
    assert_eq!(
        fault(vec![Face::PN(vec![(0, 0), (1, 0), (5, 0)])]),
        IngestError { face: 0, fault: Fault::PositionOutOfRange }
    );
    assert_eq!(
        fault(vec![Face::PTN(vec![(0, 0, 0), (1, 4, 0), (2, 0, 0)])]),
        IngestError { face: 0, fault: Fault::TextureOutOfRange }
    );
}

#[test]
fn only_the_normal_of_the_first_corner_counts() {
    assert!(Node::from_obj(&mesh(vec![Face::PN(vec![(0, 1), (1, 9), (2, 9)])])).is_ok());
}

#[test]
fn first_fault_is_reported() {
    // face 1 has two faults: its normal comes before its corners; face 2 is faulty too
    assert_eq!(
        fault(vec![good(), Face::PTN(vec![(9, 9, 9), (0, 0, 0), (1, 1, 1)]), Face::P(vec![])]),
        IngestError { face: 1, fault: Fault::NormalOutOfRange }
    );
    // within a face the corners are checked in turn, position before texture
    assert_eq!(
        fault(vec![Face::PTN(vec![(0, 0, 0), (1, 7, 0), (8, 0, 0)])]),
        IngestError { face: 0, fault: Fault::TextureOutOfRange }
    );
    assert_eq!(
        fault(vec![Face::PTN(vec![(0, 0, 0), (8, 7, 0), (1, 0, 0)])]),
        IngestError { face: 0, fault: Fault::PositionOutOfRange }
    );
}
