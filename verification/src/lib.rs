//! Verified core of a 2D tumbling ball-mill simulator: the deterministic pseudo-random
//! generator, the integer cell bookkeeping of the uniform-grid broadphase, the ordering of
//! contact records, the marching-squares topology of the slurry free-surface extraction, and the
//! discrete simulation parameters with their range checks.

pub mod contacts;
pub mod contour_laws;
pub mod grid;
pub mod grid_laws;
pub mod params;
pub mod rng;
pub mod surface;
pub mod surface_laws;
