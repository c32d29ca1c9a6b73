//! Fragments: what a triangle contributes to one pixel.
use vstd::prelude::*;

use crate::color::Color;
use crate::scalar::{Scalar, Vector3};

verus! {

/// One candidate contribution to a pixel, with its interpolated attributes.
#[derive(Clone, Copy, PartialEq, Eq, Structural, Debug)]
pub struct Fragment {
    /// The pixel's column.
    pub x: usize,
    /// The pixel's row.
    pub y: usize,
    /// The interpolated depth, by which fragments of one pixel compete.
    pub depth: Scalar,
    /// The interpolated normal.
    pub normal: Vector3,
    /// The interpolated position in the space of the mesh, the coordinate
    /// that the procedural shaders sample at.
    pub vertex_position: Vector3,
    /// The interpolated base colour.
    pub color: Color,
    /// The light that the fragment receives.
    pub intensity: Scalar,
}

/// A fragment after shading: a pixel, a packed colour and a depth.
#[derive(Clone, Copy, PartialEq, Eq, Structural, Debug)]
pub struct Shaded {
    pub x: usize,
    pub y: usize,
    pub color: u32,
    pub depth: Scalar,
}

} // verus!
