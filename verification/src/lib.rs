//! Escape-time rendering of the Mandelbrot set.
//!
//! The complex plane is carried in exact fixed-point arithmetic (`i64`
//! multiples of `fixed::SCALE`), so every stage of the pipeline — the
//! point evaluator with its interior and exterior short-circuits, the
//! affine pixel-to-plane mapping, the sampling pass that discovers the
//! iteration range of a view, the grayscale and RGBA generators, the
//! color palette and the adaptive iteration budget — has an exact
//! contract and is verified against it.

pub mod fixed;
pub mod evaluate;
pub mod mapping;
pub mod range;
pub mod gray;
pub mod render;
pub mod segment;
pub mod adaptive;
pub mod laws;
pub mod palette;
pub mod full;
pub mod viewport;
pub mod smooth;
pub mod pool;
