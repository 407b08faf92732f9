//! The softened two-point gravitational force.
//!
//! Both trees reduce their far-field approximations and their direct
//! evaluations to this one primitive: the force a point mass exerts on
//! another, with a softening length bounding the magnitude at close range
//! and a zero direction (hence zero contribution) when the separation is
//! below one unit. The result is exact in integer units and bounded by the
//! gravitational numerator `g * m1 * m2`.

use vstd::prelude::*;
use crate::vector::{VecN, spec_dist2};
use crate::arith::{
    tdiv, isqrt, sqrt_i64, div_trunc, div_trunc_i128, lemma_tdiv_abs_bound, lemma_div_nonneg_le,
    lemma_mul_le, lemma_abs_le_isqrt, lemma_square_bound,
};
use crate::config::SimConfig;
use crate::consts::{COORD_LIMIT, MASS_LIMIT, FORCE_LIMIT};

verus! {

/// The magnitude of the softened gravitational pull between masses `m1` and
/// `m2` at squared distance `d2`: `g * m1 * m2 / (d2 + softening)`.
pub open spec fn spec_fmag(m1: int, m2: int, d2: int, cfg: SimConfig) -> int {
    tdiv(cfg.g * m1 * m2, d2 + cfg.softening_sq)
}

/// Component `i` of the force exerted on a mass `m1` at `p1` by a mass `m2`
/// at `p2`: the softened magnitude along the separation direction, and zero
/// when the two points are less than one unit apart.
pub open spec fn spec_force_comp(
    m1: int,
    p1: VecN,
    m2: int,
    p2: VecN,
    cfg: SimConfig,
    i: int,
) -> int {
    let d2 = spec_dist2(p1, p2);
    let dist = isqrt(d2);
    if dist == 0 {
        0
    } else {
        tdiv(spec_fmag(m1, m2, d2, cfg) * (p2.coords[i] - p1.coords[i]), dist)
    }
}

/// Each component of the softened force is bounded in magnitude by the
/// gravitational numerator `g * m1 * m2`.
pub proof fn lemma_force_comp_bound(m1: int, p1: VecN, m2: int, p2: VecN, cfg: SimConfig, i: int)
    requires
        cfg.valid(),
        0 <= m1 <= MASS_LIMIT,
        0 <= m2 <= MASS_LIMIT,
        p1.in_range(),
        p2.in_range(),
        0 <= i < 2,
    ensures
        -(cfg.g * m1 * m2) <= spec_force_comp(m1, p1, m2, p2, cfg, i) <= cfg.g * m1 * m2,
{
    lemma_mul_le(cfg.g as int, MASS_LIMIT as int, m1, MASS_LIMIT as int);
    lemma_mul_le(cfg.g * m1, (MASS_LIMIT * MASS_LIMIT) as int, m2, MASS_LIMIT as int);
    let d2 = spec_dist2(p1, p2);
    lemma_square_bound(p1.coords[0] - p2.coords[0], 2 * COORD_LIMIT as int);
    lemma_square_bound(p1.coords[1] - p2.coords[1], 2 * COORD_LIMIT as int);
    let dist = isqrt(d2);
    if dist != 0 {
        lemma_div_nonneg_le(cfg.g * m1 * m2, d2 + cfg.softening_sq);
        let fmag = spec_fmag(m1, m2, d2, cfg);
        let sep = p2.coords[i] - p1.coords[i];
        lemma_abs_le_isqrt(p1.coords[i] - p2.coords[i], d2);
        assert(-(dist * fmag) <= fmag * sep <= dist * fmag) by (nonlinear_arith)
            requires
                0 <= fmag,
                -dist <= sep <= dist,
        {}
        lemma_tdiv_abs_bound(fmag * sep, dist, fmag);
    }
}

/// Computes the force on a mass `m1` at `p1` from a mass `m2` at `p2`,
/// exactly as [`spec_force_comp`] states it, each component bounded by the
/// gravitational numerator.
pub fn force_between(m1: i64, p1: &VecN, m2: i64, p2: &VecN, cfg: &SimConfig) -> (f: VecN)
    requires
        cfg.valid(),
        0 <= m1 <= MASS_LIMIT,
        0 <= m2 <= MASS_LIMIT,
        p1.in_range(),
        p2.in_range(),
    ensures
        f.coords[0] == spec_force_comp(m1 as int, *p1, m2 as int, *p2, *cfg, 0),
        f.coords[1] == spec_force_comp(m1 as int, *p1, m2 as int, *p2, *cfg, 1),
        -(cfg.g * m1 * m2) <= f.coords[0] <= cfg.g * m1 * m2,
        -(cfg.g * m1 * m2) <= f.coords[1] <= cfg.g * m1 * m2,
    {
    proof {
        lemma_mul_le(cfg.g as int, MASS_LIMIT as int, m1 as int, MASS_LIMIT as int);
        lemma_mul_le(
            (cfg.g * m1) as int,
            (MASS_LIMIT * MASS_LIMIT) as int,
            m2 as int,
            MASS_LIMIT as int,
        );
    }
    let d2 = p1.dist2(p2);
    proof {
        lemma_square_bound((p1.coords[0] - p2.coords[0]) as int, 2 * COORD_LIMIT as int);
        lemma_square_bound((p1.coords[1] - p2.coords[1]) as int, 2 * COORD_LIMIT as int);
    }
    let dist = sqrt_i64(d2);
    if dist == 0 {
        return VecN::new([0, 0]);
    }
    let num = cfg.g * m1 * m2;
    let den = d2 + cfg.softening_sq;
    let fmag = div_trunc(num, den);
    proof {
        lemma_div_nonneg_le(num as int, den as int);
    }
    let sx = p2.coords[0] - p1.coords[0];
    let sy = p2.coords[1] - p1.coords[1];
    proof {
        lemma_abs_le_isqrt((p1.coords[0] - p2.coords[0]) as int, d2 as int);
        lemma_abs_le_isqrt((p1.coords[1] - p2.coords[1]) as int, d2 as int);
        assert(-((dist as int) * (fmag as int)) <= (fmag as int) * (sx as int) <= (dist as int)
            * (fmag as int)) by (nonlinear_arith)
            requires
                0 <= fmag,
                -dist <= sx <= dist,
        {}
        assert(-((dist as int) * (fmag as int)) <= (fmag as int) * (sy as int) <= (dist as int)
            * (fmag as int)) by (nonlinear_arith)
            requires
                0 <= fmag,
                -dist <= sy <= dist,
        {}
        assert(-(FORCE_LIMIT as int * (2 * COORD_LIMIT) as int) <= (fmag as int) * (sx as int)
            <= FORCE_LIMIT as int * (2 * COORD_LIMIT) as int) by (nonlinear_arith)
            requires
                0 <= fmag <= FORCE_LIMIT as int,
                -(2 * COORD_LIMIT as int) <= sx <= 2 * COORD_LIMIT as int,
        {}
        assert(-(FORCE_LIMIT as int * (2 * COORD_LIMIT) as int) <= (fmag as int) * (sy as int)
            <= FORCE_LIMIT as int * (2 * COORD_LIMIT) as int) by (nonlinear_arith)
            requires
                0 <= fmag <= FORCE_LIMIT as int,
                -(2 * COORD_LIMIT as int) <= sy <= 2 * COORD_LIMIT as int,
        {}
        lemma_tdiv_abs_bound((fmag as int) * (sx as int), dist as int, fmag as int);
        lemma_tdiv_abs_bound((fmag as int) * (sy as int), dist as int, fmag as int);
    }
    let fx = div_trunc_i128((fmag as i128) * (sx as i128), dist as i128);
    let fy = div_trunc_i128((fmag as i128) * (sy as i128), dist as i128);
    VecN::new([fx as i64, fy as i64])
}

} // verus!
