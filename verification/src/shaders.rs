//! The shading strategies that need no state of their own.
//!
//! A rasterizer is built with one shader and carries it for its lifetime.
//! Shading itself is arithmetic on real-valued colors and normals and is
//! done by the caller, who hands the resulting color to the depth-tested
//! write; these types select the strategy.

use vstd::prelude::*;

verus! {

/// Passes the interpolated vertex color through without lighting.
#[derive(Clone, Copy, Debug, PartialEq, Eq, Structural)]
pub struct EmptyShader;

/// Shows the surface normal as a color: each component of the normal,
/// between -1 and 1, becomes one channel between 0 and 255.
#[derive(Clone, Copy, Debug, PartialEq, Eq, Structural)]
pub struct NormalShader;

} // verus!
