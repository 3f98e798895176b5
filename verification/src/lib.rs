//! A constrained 2D pointer.
//!
//! The cursor moves freely under incoming motion deltas until it would cross
//! one of a fixed set of boundary segments.  At the first crossing it snaps
//! exactly onto the crossing point and switches to a sliding mode, in which
//! motion is projected along that segment and clamped to its endpoints, until
//! the input carries it back to the inside half-plane.
//!
//! All geometry is exact: points are rationals kept in homogeneous form
//! (numerators and a positive denominator), so side tests, intersections and
//! endpoint clamping are computed without division or rounding.

pub mod boundary;
pub mod cursor;
pub mod geometry;
