//! Verified core of a Mandelbrot-set renderer.
//!
//! The pixel grid, the partition of the image into row bands, the mapping
//! from escape counts to grayscale intensities, and the command-line pair
//! parsing are specified and proved here. The floating-point evaluation of
//! the escape-time recurrence itself cannot be stated in this language and
//! is left to the surrounding application, which feeds its results back into
//! the verified assembly functions.

pub mod grid;
pub mod parse;
pub mod render;
