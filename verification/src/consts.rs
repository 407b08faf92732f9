//! Simulation-wide constants.
//!
//! Every physical quantity in this crate is an integer in caller-chosen
//! units, so each constant here is exact. The `*_LIMIT` constants bound the
//! magnitudes the core accepts; they are chosen so that every intermediate
//! product in the force and integration formulas fits the machine words the
//! code computes with.

use vstd::prelude::*;

verus! {

/// The number of dimensions to simulate
pub const DIMENSIONS: usize = 2;

/// Number of octants of a bounding box: 2 to the power `DIMENSIONS`
pub const DIM_POW: usize = 4;

/// Largest magnitude accepted for a position or velocity component
pub const COORD_LIMIT: i64 = 0x2000_0000;

/// Largest mass accepted for a single body and for a whole population
pub const MASS_LIMIT: i64 = 0x10_0000;

/// Largest magnitude a net force component can reach: the gravitational
/// numerator `G * m1 * m2` at its limits (`MASS_LIMIT` cubed)
pub const FORCE_LIMIT: i64 = 0x1000_0000_0000_0000;

/// Maximum mass the bodies can spawn with
pub const MAX_MASS: i64 = 1000;

/// Newtonian constant
pub const G: i64 = 1;

/// Theta value for the Barnes-Hut method, as an exact ratio (one half)
pub const THETA_NUM: i64 = 1;

/// Denominator of the Barnes-Hut theta ratio
pub const THETA_DEN: i64 = 2;

/// Amount of bodies to spawn
pub const N_BODIES: usize = 10_000;

/// Amount of black holes to spawn
pub const N_HOLES: usize = 1;

/// The maximum distance of the simulation in all directions
pub const MAX_DIST: i64 = 1080;

/// Time step, as an exact ratio of seconds (one hundredth)
pub const DT_NUM: i64 = 1;

/// Denominator of the time-step ratio
pub const DT_DEN: i64 = 100;

/// Bodies per bucket-tree cell before the cell subdivides
pub const NODE_CAPACITY: usize = 4;

/// Cell width at or below which a bucket-tree cell never subdivides
pub const MIN_CELL_SIZE: i64 = 1;

/// Default softened squared length added to squared distances
pub const SOFTENING_SQ: i64 = 1;

/// Default distance below which the merge pass consolidates two bodies
pub const MERGE_THRESHOLD: i64 = 1;

/// Mass damping applied by a merge, as an exact ratio (six tenths)
pub const DAMPING_NUM: i64 = 3;

/// Denominator of the merge damping ratio
pub const DAMPING_DEN: i64 = 5;

} // verus!
