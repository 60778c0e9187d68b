//! Ray/sphere intersection and surface scattering over fixed-point geometry.

pub mod fixed;
pub mod hitable;
pub mod material;
pub mod ray;
pub mod vector;
