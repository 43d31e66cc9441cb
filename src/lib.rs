//! A deformable 2-D blob: a particle mesh joined by springs, built once by
//! Poisson-disk packing plus an outline ring, then advanced frame by frame
//! with spring forces, gravity, semi-implicit Euler integration, wall bounces
//! and pairwise overlap resolution.
//!
//! All quantities are integers: lengths are in sub-pixel units chosen by the
//! caller, time steps in microseconds, ratios in parts per thousand.
pub mod geometry;
pub mod params;
pub mod physics;
pub mod blob;
pub mod mesh;
pub mod topology;
mod random;

pub use crate::blob::Blob;
pub use crate::geometry::Point;
pub use crate::params::BlobParams;
pub use crate::physics::{Particle, Spring};
