//! A meshfree model of a scalar field over the unit disk.
//!
//! Coordinates and field values are fixed-point numbers: an `i64` mantissa
//! standing for `mantissa / SCALE` with a single global scale. All arithmetic
//! on them is exact integer arithmetic, so every routine carries a contract
//! that pins its result down; truncating divisions happen only where a
//! contract says so.

pub mod fixed;
pub mod error;
pub mod grid_2d;
pub mod grid_3d;
pub mod kd_tree;
pub mod point;
pub mod two_variable_polynomial;
pub mod vector2;
pub mod wave_eqation;

