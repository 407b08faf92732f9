//! Simulation configuration.
//!
//! Every tunable of the core — gravitational constant, softening, time step,
//! Barnes-Hut threshold, merge threshold and damping — is threaded through
//! the components as an explicit value rather than a compile-time constant,
//! so several simulations with different parameters can coexist. Ratios
//! (time step, theta, damping) are exact integer fractions.

use vstd::prelude::*;
use crate::consts::{
    COORD_LIMIT, MASS_LIMIT, G, SOFTENING_SQ, DT_NUM, DT_DEN, THETA_NUM, THETA_DEN,
    MERGE_THRESHOLD, DAMPING_NUM, DAMPING_DEN, MAX_DIST,
};

verus! {

/// Parameters of a simulation, all exact integers
#[derive(Clone, Copy, Debug)]
pub struct SimConfig {
    /// Newtonian constant in the caller's units
    pub g: i64,
    /// Softened squared length added to every squared distance
    pub softening_sq: i64,
    /// Numerator of the time step
    pub dt_num: i64,
    /// Denominator of the time step
    pub dt_den: i64,
    /// Numerator of the Barnes-Hut admissibility threshold theta
    pub theta_num: i64,
    /// Denominator of the Barnes-Hut admissibility threshold theta
    pub theta_den: i64,
    /// Distance below which the merge pass consolidates two bodies
    pub merge_threshold: i64,
    /// Numerator of the mass damping applied by a merge
    pub damping_num: i64,
    /// Denominator of the mass damping applied by a merge
    pub damping_den: i64,
    /// The simulation region spans `0` to `max_dist` in every dimension
    pub max_dist: i64,
}

impl SimConfig {
    /// A valid configuration: positive constants, ratios with positive
    /// denominators, and every field small enough that the force and
    /// integration formulas stay within the machine words they use.
    pub open spec fn valid(self) -> bool {
        &&& 1 <= self.g <= MASS_LIMIT
        &&& 1 <= self.softening_sq <= COORD_LIMIT * COORD_LIMIT
        &&& 1 <= self.dt_num <= MASS_LIMIT
        &&& 1 <= self.dt_den <= MASS_LIMIT
        &&& 0 <= self.theta_num <= MASS_LIMIT
        &&& 1 <= self.theta_den <= MASS_LIMIT
        &&& 0 <= self.merge_threshold <= 2 * COORD_LIMIT
        &&& 0 <= self.damping_num <= self.damping_den
        &&& 1 <= self.damping_den <= MASS_LIMIT
        &&& 1 <= self.max_dist <= COORD_LIMIT
    }

    /// The configuration built from the crate's default constants.
    pub fn standard() -> (cfg: Self)
        ensures
            cfg.valid(),
            cfg.g == G,
            cfg.softening_sq == SOFTENING_SQ,
            cfg.dt_num == DT_NUM,
            cfg.dt_den == DT_DEN,
            cfg.theta_num == THETA_NUM,
            cfg.theta_den == THETA_DEN,
            cfg.merge_threshold == MERGE_THRESHOLD,
            cfg.damping_num == DAMPING_NUM,
            cfg.damping_den == DAMPING_DEN,
            cfg.max_dist == MAX_DIST,
    {
        SimConfig {
            g: G,
            softening_sq: SOFTENING_SQ,
            dt_num: DT_NUM,
            dt_den: DT_DEN,
            theta_num: THETA_NUM,
            theta_den: THETA_DEN,
            merge_threshold: MERGE_THRESHOLD,
            damping_num: DAMPING_NUM,
            damping_den: DAMPING_DEN,
            max_dist: MAX_DIST,
        }
    }
}

} // verus!
