//! Exact-arithmetic core of a small scientific utility library:
//! aggregate statistics over integer series, reported as exact
//! rationals, and a spherical-coordinate value type with scalar
//! arithmetic on its radius.

pub mod coordinate;
pub mod errors;
pub mod math;
pub mod rational;
