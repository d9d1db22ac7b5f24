//! The verified core of a CPU ray tracer.
//!
//! - `canvas`: a grid of pixels stored row by row, and the pixel reached at
//!   each step of a row-major walk.
//! - `ppm`: the plain-text PPM encoding of an image of 8-bit RGB pixels.
//! - `matrix`: square matrices and the operations that only move entries
//!   (access, transpose, submatrix).
//! - `intersection`: ray-surface intersections, their stable ordering by ray
//!   parameter, and the selection of the nearest hit in front of the ray.
//!
//! The geometry and shading that compute on floating-point numbers build on
//! these types and are not part of this crate.

pub mod canvas;
pub mod intersection;
pub mod matrix;
pub mod ppm;
