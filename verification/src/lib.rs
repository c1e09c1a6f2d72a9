//! A library for constructing planar tilings of regular polygons and their
//! dual tilings.
//!
//! A caller attaches regular polygons edge to edge to build a repeating unit
//! pattern, fills a bounded viewing area with that pattern, and optionally
//! derives the dual tiling (one polygon per interior vertex, connecting the
//! centers of the shapes that meet there).
//!
//! All geometry is carried out in fixed-point arithmetic: a coordinate or an
//! angle is an `i64` holding the real value scaled by `UNIT` (`10^10`).
//! Rendering is left to an external collaborator that consumes the point
//! rings this library produces.

pub use crate::color::Color;
pub use crate::error::Error;
pub use crate::model::Model;
pub use crate::shape::{Dual, Point, Polygon, Shape};

pub mod color;
pub mod error;
pub mod fixed;
pub mod model;
pub mod shape;
pub mod trig;
