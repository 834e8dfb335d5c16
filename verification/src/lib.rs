//! A verified Mandelbrot renderer.
//!
//! All plane-space arithmetic is fixed point (see [`fixed`]): the
//! escape-time kernel with its cardioid and period-2-bulb short-circuits
//! and exact cycle detection, the boundary-scanning renderer, the
//! coordinate mapping, the zoom transform and both colorizers are
//! verified against mathematical models of the same arithmetic.

pub mod boundary_scanner;
pub mod color;
pub mod fixed;
pub mod mandelbrot;
pub mod range;
pub mod rectangle;
pub mod vector;
