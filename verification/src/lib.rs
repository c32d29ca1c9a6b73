//! A software rendering core with proved contracts.
//!
//! The crate holds the integer half of a small rendering pipeline:
//!
//! - [`raster`] decides which pixels a triangle covers, by exact arithmetic
//!   on fixed-point coordinates, and [`blend`] interpolates colours under
//!   the weights that it yields;
//! - [`framebuffer`] keeps two pixel arrays and a depth array, admits a
//!   write where it is nearer than what is stored, and exchanges the arrays
//!   between frames; [`frame`] is its mathematical model, [`line`] the
//!   digital line that it draws;
//! - [`shaders`] names the procedural variants, dispatches on a selector,
//!   and takes the decisions of the variants that compare a sample with a
//!   threshold;
//! - [`render`] forms triangles from a list of vertices and takes them
//!   through rasteriser, shader and framebuffer;
//! - [`camera`] keeps the pose of an orbiting camera and its change flag,
//!   and [`stars`] scatters a backdrop.
//!
//! Floating-point work (transforms, interpolation of depth, noise) is left
//! to the caller, who plugs it in through [`shaders::FragmentStage`]. Values
//! in floating point pass through the crate as bit patterns, see [`scalar`].

pub mod arith;
pub mod blend;
pub mod camera;
pub mod color;
pub mod fragment;
pub mod frame;
pub mod framebuffer;
pub mod line;
pub mod raster;
pub mod render;
pub mod scalar;
pub mod shaders;
pub mod stars;
