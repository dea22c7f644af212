//! Exact ballistics in fixed point.
//!
//! Positions, velocities, gravity, lengths and times are fixed-point numbers
//! with 32 fractional bits: a field holds its value times `2^32`, so the
//! smallest step is `2^-32`, about `2.3e-10`. Every operation states its
//! result as a mathematical function of its inputs, including the way it
//! rounds to a step, and is proved to compute exactly that without overflow.
//!
//! - [`sqrt`]: integer square roots.
//! - [`wide`]: whole products of 128-bit numbers.
//! - [`types`]: Cartesian vectors in two and three dimensions.
//! - [`projectiles`]: a point mass under constant gravity.

pub mod projectiles;
pub mod sqrt;
pub mod types;
pub mod wide;
