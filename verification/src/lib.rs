//! Binary space partitioning of a polygon soup, and its flattening into triangles.
//!
//! The library holds the combinatorial side of the pipeline: which vertex goes to which
//! side of a cut, how the tree is nested, which ear is clipped next, in which order the
//! leaves are visited. Vertices are handles into an arena that records how each vertex
//! came to be; coordinates never enter the library. Whoever drives it measures distances
//! and turns on the coordinates it keeps and reports the outcome as sides and signs.
//!
//! Each algorithm comes in two forms that are proved to agree: as a function of the
//! polygons and of all the measurements it needs, and as a machine that asks for one
//! measurement at a time.
//!
//! - [`mesh`]: vertices, polygons, the arena.
//! - [`ingest`]: from the indexed faces of a mesh to polygons and arena.
//! - [`split`]: clipping one polygon against one plane.
//! - [`level`]: holding a list of polygons against the plane of its first.
//! - [`tree`]: the partition tree.
//! - [`builder`]: building the tree.
//! - [`triangulate`]: ear clipping of one polygon.
//! - [`flatten`]: walking the tree and cutting its polygons into triangles.
pub mod builder;
pub mod flatten;
pub mod ingest;
pub mod level;
pub mod mesh;
pub mod split;
pub mod tree;
pub mod triangulate;
