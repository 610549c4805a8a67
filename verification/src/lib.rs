//! Procedural synthesis of 2D scalar grids ("heightmaps"), built on a
//! toroidal grid abstraction: diamond-square midpoint-displacement fractal
//! noise and tileable gradient ("Perlin-style") noise. The grids are
//! generic in their cell type; the numeric work each algorithm delegates
//! to caller-supplied closures, and the contracts pin down which cells
//! change and how the closure outputs reach them.

pub mod generators;
pub mod image;
