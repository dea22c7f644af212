//! Models of projectile flight.

pub mod simple;
