use bsp::ingest::{Face, Mesh};
use bsp::mesh::{Ngon, PlaneTri, Vertex};
use bsp::split::{Intersection, PointInt};
use bsp::tree::Node;
use bsp::triangulate::{EdgeSigns, Turn};

type Vec3 = [f32; 3];
type Vec2 = [f32; 2];

const EPSILON: f32 = 0.02;

/// Coordinates for a run of the library: the mesh's own, and those of every vertex of
/// the arena as far as they have been worked out.
struct Space {
    positions: Vec<Vec3>,
    textures: Vec<Vec2>,
    normals: Vec<Vec3>,
    pos: Vec<Vec3>,
    uv: Vec<Vec2>,
}

fn sub(a: Vec3, b: Vec3) -> Vec3 {
    [a[0] - b[0], a[1] - b[1], a[2] - b[2]]
}

fn dot(a: Vec3, b: Vec3) -> f32 {
    a[0] * b[0] + a[1] * b[1] + a[2] * b[2]
}

fn cross(a: Vec3, b: Vec3) -> Vec3 {
    [a[1] * b[2] - a[2] * b[1], a[2] * b[0] - a[0] * b[2], a[0] * b[1] - a[1] * b[0]]
}

fn cross2(a: Vec2, b: Vec2) -> f32 {
    a[0] * b[1] - a[1] * b[0]
}

fn length(a: Vec3) -> f32 {
    dot(a, a).sqrt()
}

fn unit(a: Vec3) -> Vec3 {
    let l = length(a);
    [a[0] / l, a[1] / l, a[2] / l]
}

impl Space {
    fn new(positions: Vec<Vec3>, textures: Vec<Vec2>, normals: Vec<Vec3>) -> Space {
        Space { positions, textures, normals, pos: vec![], uv: vec![] }
    }

    /// The plane through three vertices: unit normal and distance.
    fn plane(&self, tri: PlaneTri) -> (Vec3, f32) {
        let (a, b, c) = (self.pos[tri.a], self.pos[tri.b], self.pos[tri.c]);
        let normal = unit(cross(sub(b, a), sub(c, a)));
        (normal, -dot(normal, a))
    }

    /// Works out the coordinates of the vertices that the arena has gained.
    fn follow(&mut self, vertices: &[Vertex]) {
        for vertex in &vertices[self.pos.len()..] {
            let (pos, uv) = match *vertex {
                Vertex::Corner { position, texture } => {
                    (self.positions[position], texture.map_or([0.0, 0.0], |t| self.textures[t]))
                }
                Vertex::Cut { plane, from, to } => {
                    let (normal, dist) = self.plane(plane);
                    let (a, b) = (self.pos[from], self.pos[to]);
                    let direction = unit(sub(b, a));
                    let divergence = dot(direction, normal);
                    assert!(divergence != 0.0);
                    let step = -(dot(normal, a) + dist) / divergence;
                    let amt = step / length(sub(b, a));
                    let (ta, tb) = (self.uv[from], self.uv[to]);
                    (
                        [
                            direction[0] * step + a[0],
                            direction[1] * step + a[1],
                            direction[2] * step + a[2],
                        ],
                        [ta[0] + (tb[0] - ta[0]) * amt, ta[1] + (tb[1] - ta[1]) * amt],
                    )
                }
            };
            self.pos.push(pos);
            self.uv.push(uv);
        }
    }

    fn sides(&self, plane: PlaneTri, polygon: &[usize]) -> Vec<PointInt> {
        let (normal, dist) = self.plane(plane);
        polygon
            .iter()
            .map(|&v| {
                let d = dot(normal, self.pos[v]) + dist;
                PointInt::classify(d.abs() < EPSILON, d < 0.0)
            })
            .collect()
    }

    fn build(&mut self, mesh: &Mesh) -> (Option<Node>, usize) {
        let (root, answers) = self.build_recording(mesh);
        (root, answers.len())
    }

    /// Builds a tree and keeps the sides that were measured for each level.
    fn build_recording(&mut self, mesh: &Mesh) -> (Option<Node>, Vec<Vec<Vec<PointInt>>>) {
        let mut builder = Node::from_obj(mesh).unwrap();
        let mut answers = vec![];
        loop {
            self.follow(builder.vertices());
            let request = match builder.request() {
                Some(request) => request,
                None => break,
            };
            let sides: Vec<Vec<PointInt>> =
                request.polygons.iter().map(|p| self.sides(request.plane, p)).collect();
            builder.advance(&sides).unwrap();
            answers.push(sides);
        }
        let (root, vertices) = builder.finish().unwrap();
        assert_eq!(vertices.len(), self.pos.len());
        (root, answers)
    }

    fn is_ear(&self, normal: usize, tri: [usize; 3], others: &[usize]) -> bool {
        let n = self.normals[normal];
        let p = Node::projection(
            n[0].abs() > n[1].abs(),
            n[0].abs() > n[2].abs(),
            n[2].abs() > n[1].abs(),
        );
        let winding = n[p.dropped] > 0.0;
        let flat = |v: usize| -> Vec2 { [self.pos[v][p.u], self.pos[v][p.v]] };
        let sub2 = |a: Vec2, b: Vec2| -> Vec2 { [a[0] - b[0], a[1] - b[1]] };
        let (a, b, c) = (flat(tri[0]), flat(tri[1]), flat(tri[2]));
        let (ab, bc, ca) = (sub2(b, a), sub2(c, b), sub2(a, c));
        let turn = cross2(ab, bc) > 0.0;
        let turn_to = |edge: Vec2, from: Vec2, q: Vec2| -> Turn {
            let cross = cross2(edge, sub2(q, from));
            Turn::classify(cross > 0.0, cross < 0.0)
        };
        let signs: Vec<EdgeSigns> = others
            .iter()
            .map(|&o| {
                let q = flat(o);
                EdgeSigns { ab: turn_to(ab, a, q), bc: turn_to(bc, b, q), ca: turn_to(ca, c, q) }
            })
            .collect();
        Node::check_ear(winding, turn, &signs)
    }

    fn triangles(&self, mut flattener: bsp::flatten::Flattener) -> Vec<Ngon> {
        while let Some(c) = flattener.candidate() {
            let ear = self.is_ear(c.normal, [c.a, c.b, c.c], &c.others);
            assert!(flattener.answer(ear));
        }
        flattener.finish().unwrap()
    }

    fn area(&self, polygon: &Ngon) -> f32 {
        let mut sum = [0.0, 0.0, 0.0];
        for i in 1..polygon.v.len() - 1 {
            let (a, b, c) =
                (self.pos[polygon.v[0]], self.pos[polygon.v[i]], self.pos[polygon.v[i + 1]]);
            let x = cross(sub(b, a), sub(c, a));
            sum = [sum[0] + x[0], sum[1] + x[1], sum[2] + x[2]];
        }
        length(sum) / 2.0
    }
}

fn count_leaves(node: &Option<Node>) -> usize {
    match node {
        None => 0,
        Some(Node::Leaf(_)) => 1,
        Some(Node::Split(split)) => {
            count_leaves(&split.children.0) + count_leaves(&split.children.1)
        }
    }
}

fn unit_square() -> (Vec<Vec3>, Vec<Vec2>) {
    (
        vec![[0.0, 0.0, 0.0], [1.0, 0.0, 0.0], [1.0, 1.0, 0.0], [0.0, 1.0, 0.0]],
        vec![[0.0, 0.0], [1.0, 0.0], [1.0, 1.0], [0.0, 1.0]],
    )
}

#[test]
fn square_split_through_its_middle() {
    let (mut positions, textures) = unit_square();
    // three points of the plane x = 0.5, whose front is the side of growing x
    positions.extend([[0.5, 0.0, 0.0], [0.5, 1.0, 0.0], [0.5, 0.0, 1.0]]);
    let mut space = Space::new(positions, textures, vec![[0.0, 0.0, 1.0]]);
    let mut vertices: Vec<Vertex> = (0..4)
        .map(|i| Vertex::Corner { position: i, texture: Some(i) })
        .chain((4..7).map(|i| Vertex::Corner { position: i, texture: None }))
        .collect();
    space.follow(&vertices);
    let square = Ngon { v: vec![0, 1, 2, 3], norm: 0 };
    let plane = PlaneTri { a: 4, b: 5, c: 6 };
    let sides = space.sides(plane, &square.v);
    assert_eq!(
        sides,
        vec![PointInt::Behind, PointInt::InFront, PointInt::InFront, PointInt::Behind]
    );
    let (kind, portal) = Node::intersect(&square, &sides, plane, &mut vertices);
    space.follow(&vertices);
    let (front, behind) = match kind {
        Intersection::Split(front, behind) => (front, behind),
        other => panic!("not split: {:?}", other),
    };
    // two rectangles, on either side of the two new vertices
    assert_eq!(front.v, vec![7, 1, 2, 8]);
    assert_eq!(behind.v, vec![0, 7, 8, 3]);
    assert_eq!(portal, vec![7, 8]);
    assert_eq!(space.pos[7], [0.5, 0.0, 0.0]);
    assert_eq!(space.pos[8], [0.5, 1.0, 0.0]);
    // the new vertices carry the mean of the texture coordinates of their edge's ends
    assert_eq!(space.uv[7], [0.5, 0.0]);
    assert_eq!(space.uv[8], [0.5, 1.0]);
    // each rectangle is cut into two triangles
    let triangles = space.triangles(bsp::flatten::Flattener::new(vec![front, behind]));
    assert_eq!(
        triangles,
        vec![
            Ngon { v: vec![7, 1, 2], norm: 0 },
            Ngon { v: vec![7, 2, 8], norm: 0 },
            Ngon { v: vec![0, 7, 8], norm: 0 },
            Ngon { v: vec![0, 8, 3], norm: 0 },
        ]
    );
}

#[test]
fn cut_interpolates_position_and_texture_with_one_parameter() {
    // an edge from (0,0,0) to (4,0,0) crossed at x = 1: a quarter of the way
    let positions =
        vec![[0.0, 0.0, 0.0], [4.0, 0.0, 0.0], [1.0, 0.0, 0.0], [1.0, 1.0, 0.0], [1.0, 0.0, 1.0]];
    let textures = vec![[0.0, 8.0], [2.0, 0.0]];
    let mut space = Space::new(positions, textures, vec![]);
    let plane = PlaneTri { a: 2, b: 3, c: 4 };
    let vertices = vec![
        Vertex::Corner { position: 0, texture: Some(0) },
        Vertex::Corner { position: 1, texture: Some(1) },
        Vertex::Corner { position: 2, texture: None },
        Vertex::Corner { position: 3, texture: None },
        Vertex::Corner { position: 4, texture: None },
        Vertex::Cut { plane, from: 0, to: 1 },
    ];
    space.follow(&vertices);
    assert_eq!(space.pos[5], [1.0, 0.0, 0.0]);
    assert_eq!(space.uv[5], [0.5, 6.0]);
}

/// The four faces of a tetrahedron, wound so that the normals point outward.
const FACES: [[usize; 3]; 4] = [[0, 2, 1], [0, 1, 3], [0, 3, 2], [1, 2, 3]];

/// A tetrahedron whose faces come in the given order, wound as they are or the
/// other way round.
fn tetrahedron_of(order: [usize; 4], reversed: bool) -> (Space, Mesh) {
    let positions = vec![[0.0, 0.0, 0.0], [1.0, 0.0, 0.0], [0.0, 1.0, 0.0], [0.0, 0.0, 1.0]];
    let normals = vec![[0.0, 0.0, -1.0], [0.0, -1.0, 0.0], [-1.0, 0.0, 0.0], [0.577, 0.577, 0.577]];
    let faces = order
        .iter()
        .map(|&n| {
            let [a, b, c] = FACES[n];
            if reversed {
                Face::PN(vec![(c, n), (b, n), (a, n)])
            } else {
                Face::PN(vec![(a, n), (b, n), (c, n)])
            }
        })
        .collect();
    (Space::new(positions, vec![], normals), Mesh { positions: 4, tex_coords: 0, normals: 4, faces })
}

fn tetrahedron() -> (Space, Mesh) {
    tetrahedron_of([0, 1, 2, 3], false)
}

fn all_single(node: &Option<Node>) -> bool {
    match node {
        None => true,
        Some(Node::Leaf(leaf)) => leaf.contents.len() == 1,
        Some(Node::Split(split)) => all_single(&split.children.0) && all_single(&split.children.1),
    }
}

#[test]
fn tetrahedron_in_any_order_and_winding_is_never_split() {
    let orders = [[0, 1, 2, 3], [3, 2, 1, 0], [1, 3, 0, 2], [2, 0, 3, 1], [3, 0, 1, 2]];
    for order in orders {
        for reversed in [false, true] {
            let (mut space, mesh) = tetrahedron_of(order, reversed);
            let (root, levels) = space.build(&mesh);
            // nothing was cut: the arena holds the twelve corners
            assert_eq!(space.pos.len(), 12);
            assert_eq!(levels, 4);
            assert_eq!(count_leaves(&root), 4);
            assert!(all_single(&root));
            // the polygons of the leaves are the four faces, each once
            let mut found: Vec<usize> = Node::polygons(&root).iter().map(|p| p.norm).collect();
            found.sort();
            assert_eq!(found, vec![0, 1, 2, 3]);
            for polygon in Node::polygons(&root) {
                let k = order.iter().position(|&n| n == polygon.norm).unwrap();
                assert_eq!(polygon.v, vec![3 * k, 3 * k + 1, 3 * k + 2]);
            }
            assert_eq!(space.triangles(Node::to_stl(root)).len(), 4);
        }
    }
}

#[test]
fn tetrahedron_builds_four_leaves_and_four_triangles() {
    let (mut space, mesh) = tetrahedron();
    let (root, levels) = space.build(&mesh);
    // no face was split: the arena holds the twelve corners and nothing else
    assert_eq!(space.pos.len(), 12);
    assert_eq!(levels, 4);
    assert_eq!(count_leaves(&root), 4);
    let triangles = space.triangles(Node::to_stl(root));
    assert_eq!(triangles.len(), 4);
    // each triangle is one of the faces, with its normal
    let mut seen: Vec<(Vec<Vec3>, usize)> = triangles
        .iter()
        .map(|t| (t.v.iter().map(|&v| space.pos[v]).collect(), t.norm))
        .collect();
    seen.sort_by_key(|(_, norm)| *norm);
    let p = &space.positions;
    assert_eq!(
        seen,
        vec![
            (vec![p[0], p[2], p[1]], 0),
            (vec![p[0], p[1], p[3]], 1),
            (vec![p[0], p[3], p[2]], 2),
            (vec![p[1], p[2], p[3]], 3),
        ]
    );
}

#[test]
fn empty_input_gives_no_tree_and_no_triangles() {
    let mut space = Space::new(vec![], vec![], vec![]);
    let mesh = Mesh { positions: 0, tex_coords: 0, normals: 0, faces: vec![] };
    let (root, levels) = space.build(&mesh);
    assert_eq!(root, None);
    assert_eq!(levels, 0);
    assert_eq!(space.triangles(Node::to_stl(root)), vec![]);
}

/// The unit square in the plane z = 0 and a square of side 2 in the plane x = 0.5.
fn crossing_squares() -> (Space, Mesh) {
    let positions = vec![
        [0.0, 0.0, 0.0],
        [1.0, 0.0, 0.0],
        [1.0, 1.0, 0.0],
        [0.0, 1.0, 0.0],
        [0.5, -1.0, -1.0],
        [0.5, 1.0, -1.0],
        [0.5, 1.0, 1.0],
        [0.5, -1.0, 1.0],
    ];
    let normals = vec![[0.0, 0.0, 1.0], [1.0, 0.0, 0.0]];
    let mesh = Mesh {
        positions: 8,
        tex_coords: 0,
        normals: 2,
        faces: vec![
            Face::PN(vec![(0, 0), (1, 0), (2, 0), (3, 0)]),
            Face::PN(vec![(4, 1), (5, 1), (6, 1), (7, 1)]),
        ],
    };
    (Space::new(positions, vec![], normals), mesh)
}

#[test]
fn measured_sides_replayed_build_the_same_tree() {
    let (mut space, mesh) = crossing_squares();
    let (root, answers) = space.build_recording(&mesh);
    let corners: Vec<Vertex> =
        (0..8).map(|i| Vertex::Corner { position: i, texture: None }).collect();
    let polygons =
        vec![Ngon { v: vec![0, 1, 2, 3], norm: 0 }, Ngon { v: vec![4, 5, 6, 7], norm: 1 }];
    let (replayed, vertices) = Node::create_node(&polygons, &answers, corners).unwrap();
    assert_eq!(replayed, root);
    assert_eq!(vertices.len(), 10);
}

#[test]
fn crossing_squares_keep_their_area() {
    let (mut space, mesh) = crossing_squares();
    let (root, levels) = space.build(&mesh);
    // the second square is split by the plane of the first
    assert_eq!(levels, 3);
    assert_eq!(count_leaves(&root), 3);
    assert_eq!(space.pos.len(), 10);
    let polygons = Node::polygons(&root);
    assert_eq!(polygons.len(), 3);
    let triangles = space.triangles(Node::to_stl(root));
    assert_eq!(triangles.len(), 6);
    let total: f32 = triangles.iter().map(|t| space.area(t)).sum();
    assert!((total - 5.0).abs() < 1e-4, "area {}", total);
}

/// A space that holds these points as the vertices 0, 1, 2, ... of its arena.
fn points(positions: Vec<Vec3>, normal: Vec3) -> Space {
    let vertices: Vec<Vertex> =
        (0..positions.len()).map(|i| Vertex::Corner { position: i, texture: None }).collect();
    let mut space = Space::new(positions, vec![], vec![normal]);
    space.follow(&vertices);
    space
}

#[test]
fn vertex_on_an_edge_blocks_no_ear_whichever_way_the_polygon_winds() {
    // clockwise seen from above, with a normal that points down
    let clockwise =
        points(vec![[0.0, 0.0, 0.0], [0.0, 2.0, 0.0], [2.0, 0.0, 0.0], [1.0, 1.0, 0.0]], [0.0, 0.0, -1.0]);
    assert!(clockwise.is_ear(0, [0, 1, 2], &[3]));
    // the same triangle counter-clockwise, with a normal that points up
    let counter =
        points(vec![[0.0, 0.0, 0.0], [2.0, 0.0, 0.0], [0.0, 2.0, 0.0], [1.0, 1.0, 0.0]], [0.0, 0.0, 1.0]);
    assert!(counter.is_ear(0, [0, 1, 2], &[3]));
}

#[test]
fn vertex_strictly_inside_blocks_the_ear_whichever_way_the_polygon_winds() {
    let clockwise =
        points(vec![[0.0, 0.0, 0.0], [0.0, 2.0, 0.0], [2.0, 0.0, 0.0], [0.5, 0.5, 0.0]], [0.0, 0.0, -1.0]);
    assert!(!clockwise.is_ear(0, [0, 1, 2], &[3]));
    let counter =
        points(vec![[0.0, 0.0, 0.0], [2.0, 0.0, 0.0], [0.0, 2.0, 0.0], [0.5, 0.5, 0.0]], [0.0, 0.0, 1.0]);
    assert!(!counter.is_ear(0, [0, 1, 2], &[3]));
    // a vertex outside blocks nothing
    let outside =
        points(vec![[0.0, 0.0, 0.0], [0.0, 2.0, 0.0], [2.0, 0.0, 0.0], [2.0, 2.0, 0.0]], [0.0, 0.0, -1.0]);
    assert!(outside.is_ear(0, [0, 1, 2], &[3]));
}
