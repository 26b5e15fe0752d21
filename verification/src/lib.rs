//! Unfolding of closed triangulated polyhedra into planar nets.
//!
//! The pipeline: raw vertex/face data is turned into a half-edge mesh
//! (`mesh`), a spanning tree of the face-adjacency graph is derived from a
//! seed face (`tree`), every face is rigidly rotated into a common plane by
//! walking that tree (`net`), and bounding extents plus the centroid of the
//! result are computed for display normalization (`stats`).
//!
//! All coordinates are integers in a fixed layout unit chosen by the caller;
//! a caller working in real units scales into this grid before building the
//! mesh and scales back when consuming the net.

use vstd::prelude::*;

pub mod geom;
pub mod mesh;
pub mod net;
pub mod stats;
pub mod tree;

verus! {

/// A vertex position in 3-space, in integer layout units.
#[derive(Clone, Copy, PartialEq, Eq, Structural, Debug)]
pub struct Point3 {
    pub x: i64,
    pub y: i64,
    pub z: i64,
}

/// A planar point of the unfolded net, in the same integer units.
#[derive(Clone, Copy, PartialEq, Eq, Structural, Debug)]
pub struct Point2 {
    pub x: i64,
    pub y: i64,
}

/// Everything that can go wrong while building a mesh or unfolding it.
/// Each variant carries the offending index so a caller can report it.
#[derive(Clone, Copy, PartialEq, Eq, Structural, Debug)]
pub enum UnfoldError {
    /// A face references a vertex index outside the vertex array.
    InvalidFaceIndex { face: usize, vertex: usize },
    /// A face is not a triangle.
    UnsupportedFaceArity { face: usize },
    /// More than two half-edges share one unordered vertex pair.
    NonManifoldGeometry { face: usize },
    /// The requested seed face index is invalid.
    SeedFaceOutOfRange { seed: usize },
    /// A face's edge lengths cannot form a triangle with positive area.
    DegenerateFace { face: usize },
}

/// Largest admitted magnitude of an input coordinate, so that every
/// intermediate product of the unfolding arithmetic provably fits its
/// machine type.
pub const COORD_LIMIT: i64 = 1024;

/// Largest admitted face count for an unfold request; together with
/// `COORD_LIMIT` it bounds how far the net can drift from the origin.
pub const MAX_FACES: usize = 4096;

} // verus!
