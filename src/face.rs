//! Triangles of the scene mesh.
use vstd::prelude::*;
use crate::util::Point3f;

verus! {

/// A triangle: three vertices, in the order that fixes its outward side
/// (right-hand rule over v0→v1, v0→v2), and the index of its material.
#[derive(Clone, Copy, Debug, PartialEq, Eq)]
pub struct Face {
    pub vertices: [Point3f; 3],
    pub bsdf_idx: usize,
}

impl Face {
    pub fn new(vertices: [Point3f; 3], bsdf_idx: usize) -> (r: Face)
        ensures
            r.vertices == vertices,
            r.bsdf_idx == bsdf_idx,
    {
        Face { vertices, bsdf_idx }
    }
}

} // verus!
