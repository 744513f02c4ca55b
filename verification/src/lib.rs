//! A two-dimensional gravitational N-body simulation over fixed-point numbers.
//!
//! Point masses attract one another, move in discrete ticks and merge when
//! they touch. Every quantity is a [`fixed::Fixed`], so that each rounding
//! step appears in the contracts and mass is conserved exactly.

pub mod error;
pub mod fixed;
pub mod generator;
pub mod particle;
pub mod vector;
pub mod viewport;
pub mod world;
