//! Wireframe rendering of a 3D mesh into a grid of terminal glyphs.
//!
//! Coordinates are fixed-point numbers counted in millionths of a unit, so
//! every step of the pipeline is exact integer arithmetic with a stated
//! rounding rule.

pub mod fixed;
pub mod glyph;
pub mod model;
pub mod number;
pub mod obj;
pub mod screen;
pub mod session;
pub mod text;
pub mod three;
