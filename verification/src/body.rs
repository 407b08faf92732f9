//! A body (planet, asteroid, star, black hole etc.).
//!
//! A point mass with a position, a velocity and a per-step force
//! accumulator. The force slot is overwritten once per step by the force
//! evaluator and consumed by the integration step; both integration updates
//! are stated exactly, and each reports whether the new value stayed within
//! the representable coordinate range, the integer analogue of a NaN check.

use vstd::prelude::*;
use crate::vector::VecN;
use crate::config::SimConfig;
use crate::arith::{tdiv, div_trunc_i128, lemma_mul_abs_le, lemma_mul_le};
use crate::consts::{COORD_LIMIT, MASS_LIMIT, FORCE_LIMIT};

verus! {

/// A body (planet, asteroid, star, black hole etc.)
#[derive(Clone, Copy, Debug)]
pub struct Body {
    /// Identifier of this body; negative ids mark merge products
    pub id: i64,

    /// Mass of the body
    pub mass: i64,

    /// Radius of the body (rendering only, not dynamically meaningful)
    pub rad: i64,

    /// Position of the body
    pub pos: VecN,

    /// Velocity of the body
    pub vel: VecN,

    /// Force accumulator, fully overwritten once per step
    pub force: VecN,
}

/// The velocity change of one component over a step: the accumulated force
/// times the time step, divided by the mass, rounding toward zero.
pub open spec fn spec_dv(f: int, mass: int, cfg: SimConfig) -> int {
    tdiv(f * cfg.dt_num, mass * cfg.dt_den)
}

/// The position change of one component over a step: the velocity times the
/// time step, rounding toward zero.
pub open spec fn spec_dx(v: int, cfg: SimConfig) -> int {
    tdiv(v * cfg.dt_num, cfg.dt_den as int)
}

impl Body {
    /// A body the core can integrate: bounded mass, position and velocity in
    /// the coordinate range, force components within the net-force bound.
    pub open spec fn valid(self) -> bool {
        &&& self.id > i64::MIN
        &&& 0 <= self.mass <= MASS_LIMIT
        &&& self.pos.in_range()
        &&& self.vel.in_range()
        &&& -FORCE_LIMIT <= self.force.coords[0] <= FORCE_LIMIT
        &&& -FORCE_LIMIT <= self.force.coords[1] <= FORCE_LIMIT
    }

    /// Create a new body starting at `pos` with velocity `vel`
    pub fn new(id: i64, mass: i64, rad: i64, pos: VecN, vel: VecN) -> (b: Self)
        ensures
            b.id == id,
            b.mass == mass,
            b.rad == rad,
            b.pos == pos,
            b.vel == vel,
            b.force.coords[0] == 0,
            b.force.coords[1] == 0,
    {
        Body { id, mass, rad, pos, vel, force: VecN::new([0, 0]) }
    }

    /// Update the body's velocity from its accumulated force over one time
    /// step: `velocity += (force / mass) * dt`, exactly, in integer units.
    /// Returns false — and leaves the body unchanged — when the new velocity
    /// would leave the representable range, the fatal numeric fault of the
    /// simulation. A massless body is inert and keeps its velocity.
    pub fn update_velocity(&mut self, cfg: &SimConfig) -> (ok: bool)
        requires
            old(self).valid(),
            cfg.valid(),
        ensures
            final(self).id == old(self).id,
            final(self).mass == old(self).mass,
            final(self).rad == old(self).rad,
            final(self).pos == old(self).pos,
            final(self).force == old(self).force,
            final(self).valid(),
            old(self).mass == 0 ==> ok && final(self).vel == old(self).vel,
            old(self).mass > 0 ==> ({
                let v0 = old(self).vel.coords[0] + spec_dv(
                    old(self).force.coords[0] as int,
                    old(self).mass as int,
                    *cfg,
                );
                let v1 = old(self).vel.coords[1] + spec_dv(
                    old(self).force.coords[1] as int,
                    old(self).mass as int,
                    *cfg,
                );
                &&& ok == (-COORD_LIMIT <= v0 <= COORD_LIMIT && -COORD_LIMIT <= v1 <= COORD_LIMIT)
                &&& ok ==> final(self).vel.coords[0] == v0 && final(self).vel.coords[1] == v1
                &&& !ok ==> final(self).vel == old(self).vel
            }),
    {
        if self.mass <= 0 {
            return true;
        }
        proof {
            lemma_mul_abs_le(
                self.force.coords[0] as int,
                FORCE_LIMIT as int,
                cfg.dt_num as int,
                MASS_LIMIT as int,
            );
            lemma_mul_abs_le(
                self.force.coords[1] as int,
                FORCE_LIMIT as int,
                cfg.dt_num as int,
                MASS_LIMIT as int,
            );
            lemma_mul_le(self.mass as int, MASS_LIMIT as int, cfg.dt_den as int, MASS_LIMIT as int);
            assert((self.mass as int) * (cfg.dt_den as int) >= 1) by (nonlinear_arith)
                requires
                    self.mass as int >= 1,
                    cfg.dt_den as int >= 1,
            {}
        }
        let den = (self.mass as i128) * (cfg.dt_den as i128);
        let dv0 = div_trunc_i128((self.force.coords[0] as i128) * (cfg.dt_num as i128), den);
        let dv1 = div_trunc_i128((self.force.coords[1] as i128) * (cfg.dt_num as i128), den);
        let nv0 = (self.vel.coords[0] as i128) + dv0;
        let nv1 = (self.vel.coords[1] as i128) + dv1;
        let lim = COORD_LIMIT as i128;
        if nv0 < -lim || nv0 > lim || nv1 < -lim || nv1 > lim {
            return false;
        }
        self.vel = VecN::new([nv0 as i64, nv1 as i64]);
        true
    }

    /// Update the body's position from its velocity in a `dt` time step:
    /// `position += velocity * dt`, exactly, in integer units. Returns false
    /// — and leaves the body unchanged — when the new position would leave
    /// the representable range.
    pub fn update_position(&mut self, cfg: &SimConfig) -> (ok: bool)
        requires
            old(self).valid(),
            cfg.valid(),
        ensures
            final(self).id == old(self).id,
            final(self).mass == old(self).mass,
            final(self).rad == old(self).rad,
            final(self).vel == old(self).vel,
            final(self).force == old(self).force,
            final(self).valid(),
            ({
                let p0 = old(self).pos.coords[0] + spec_dx(old(self).vel.coords[0] as int, *cfg);
                let p1 = old(self).pos.coords[1] + spec_dx(old(self).vel.coords[1] as int, *cfg);
                &&& ok == (-COORD_LIMIT <= p0 <= COORD_LIMIT && -COORD_LIMIT <= p1 <= COORD_LIMIT)
                &&& ok ==> final(self).pos.coords[0] == p0 && final(self).pos.coords[1] == p1
                &&& !ok ==> final(self).pos == old(self).pos
            }),
    {
        proof {
            lemma_mul_abs_le(
                self.vel.coords[0] as int,
                COORD_LIMIT as int,
                cfg.dt_num as int,
                MASS_LIMIT as int,
            );
            lemma_mul_abs_le(
                self.vel.coords[1] as int,
                COORD_LIMIT as int,
                cfg.dt_num as int,
                MASS_LIMIT as int,
            );
        }
        let den = cfg.dt_den as i128;
        let dx0 = div_trunc_i128((self.vel.coords[0] as i128) * (cfg.dt_num as i128), den);
        let dx1 = div_trunc_i128((self.vel.coords[1] as i128) * (cfg.dt_num as i128), den);
        let np0 = (self.pos.coords[0] as i128) + dx0;
        let np1 = (self.pos.coords[1] as i128) + dx1;
        let lim = COORD_LIMIT as i128;
        if np0 < -lim || np0 > lim || np1 < -lim || np1 > lim {
            return false;
        }
        self.pos = VecN::new([np0 as i64, np1 as i64]);
        true
    }
}

} // verus!
