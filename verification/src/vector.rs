//! Fixed-dimension integer vectors.
//!
//! Components are `i64` values in caller-chosen units. The dimensionality of
//! the simulation is fixed by [`crate::consts::DIMENSIONS`]; all vector
//! operations are written out per component and their contracts state the
//! exact value of every component of the result.

use vstd::prelude::*;
use crate::consts::COORD_LIMIT;
use crate::arith::{tdiv, isqrt, sqrt_i64, div_trunc, lemma_isqrt_bounds, lemma_square_bound};

verus! {

/// A fixed-dimension vector of integer coordinates
#[derive(Clone, Copy, Debug, PartialEq, Eq)]
pub struct VecN {
    pub coords: [i64; 2],
}

/// A value clamped to the closed interval from `-limit` to `limit`.
pub open spec fn spec_clamp(v: int, limit: int) -> int {
    if v < -limit {
        -limit
    } else if v > limit {
        limit
    } else {
        v
    }
}

/// The mass-weighted average of two positions, component by component:
/// `(m1 * p1 + m2 * p2) / (m1 + m2)`, rounding toward zero.
pub open spec fn spec_weighted_avg(p1: VecN, m1: int, p2: VecN, m2: int) -> VecN {
    VecN {
        coords: [
            tdiv(m1 * p1.coords[0] + m2 * p2.coords[0], m1 + m2) as i64,
            tdiv(m1 * p1.coords[1] + m2 * p2.coords[1], m1 + m2) as i64,
        ],
    }
}

/// Squared Euclidean distance between two vectors, exactly.
pub open spec fn spec_dist2(a: VecN, b: VecN) -> int {
    let dx = a.coords[0] - b.coords[0];
    let dy = a.coords[1] - b.coords[1];
    dx * dx + dy * dy
}

/// Squared length of a vector, exactly.
pub open spec fn spec_norm2(v: VecN) -> int {
    v.coords[0] * v.coords[0] + v.coords[1] * v.coords[1]
}

impl VecN {
    /// Every component within the magnitude the simulation core accepts.
    pub open spec fn in_range(self) -> bool {
        &&& -COORD_LIMIT <= self.coords[0] <= COORD_LIMIT
        &&& -COORD_LIMIT <= self.coords[1] <= COORD_LIMIT
    }

    /// Creates a new vector with given coordinates
    pub fn new(coords: [i64; 2]) -> (v: Self)
        ensures
            v.coords == coords,
    {
        Self { coords }
    }

    /// Creates a new vector with all coordinates set to the same value
    pub fn from(value: i64) -> (v: Self)
        ensures
            v.coords[0] == value,
            v.coords[1] == value,
    {
        Self { coords: [value, value] }
    }

    /// Clamps each coordinate within -`limit` to `limit`
    pub fn limit(&mut self, limit: i64)
        requires
            limit >= 0,
        ensures
            forall|i: int| 0 <= i < 2 ==> final(self).coords[i] == spec_clamp(old(self).coords[i] as int, limit as int),
    {
        let mut k: usize = 0;
        while k < 2
            invariant
                k <= 2,
                limit >= 0,
                forall|i: int| 0 <= i < k ==> self.coords[i] == spec_clamp(old(self).coords[i] as int, limit as int),
                forall|i: int| k <= i < 2 ==> self.coords[i] == old(self).coords[i],
            decreases 2 - k,
        {
            let c = self.coords[k];
            if c < -limit {
                self.coords[k] = -limit;
            } else if c > limit {
                self.coords[k] = limit;
            }
            k = k + 1;
        }
    }

    /// Returns the magnitude (length) of the vector: the integer square root
    /// of the exact squared length.
    pub fn magnitude(&self) -> (r: i64)
        requires
            self.in_range(),
        ensures
            r == isqrt(spec_norm2(*self)),
            r >= 0,
    {
        let x = self.coords[0];
        let y = self.coords[1];
        proof {
            lemma_square_bound(x as int, COORD_LIMIT as int);
            lemma_square_bound(y as int, COORD_LIMIT as int);
        }
        sqrt_i64(x * x + y * y)
    }

    /// Normalizes the vector, making its magnitude 1: each component is
    /// divided (rounding toward zero) by the current magnitude. A vector of
    /// magnitude zero is left unchanged.
    pub fn normalize(&mut self)
        requires
            old(self).in_range(),
        ensures
            spec_norm2(*old(self)) == 0 ==> *final(self) == *old(self),
            spec_norm2(*old(self)) > 0 ==> {
                let m = isqrt(spec_norm2(*old(self)));
                final(self).coords[0] == tdiv(old(self).coords[0] as int, m)
                    && final(self).coords[1] == tdiv(old(self).coords[1] as int, m)
            },
    {
        let mag = self.magnitude();
        proof {
            lemma_square_bound(self.coords[0] as int, COORD_LIMIT as int);
            lemma_square_bound(self.coords[1] as int, COORD_LIMIT as int);
            lemma_isqrt_bounds(spec_norm2(*self));
            if spec_norm2(*self) > 0 && mag == 0 {
                assert((mag + 1) * (mag + 1) == 1) by (nonlinear_arith)
                    requires
                        mag == 0,
                {}
                assert(false);
            }
        }
        if mag > 0 {
            self.coords[0] = div_trunc(self.coords[0], mag);
            self.coords[1] = div_trunc(self.coords[1], mag);
        }
    }

    /// Returns the distance between two vectors: the integer square root of
    /// the exact squared distance.
    pub fn distance(&self, other: &VecN) -> (r: i64)
        requires
            self.in_range(),
            other.in_range(),
        ensures
            r == isqrt(spec_dist2(*self, *other)),
            r >= 0,
    {
        let dx = self.coords[0] - other.coords[0];
        let dy = self.coords[1] - other.coords[1];
        proof {
            lemma_square_bound(dx as int, 2 * COORD_LIMIT as int);
            lemma_square_bound(dy as int, 2 * COORD_LIMIT as int);
        }
        sqrt_i64(dx * dx + dy * dy)
    }

    /// Returns the exact squared distance between two vectors.
    pub fn dist2(&self, other: &VecN) -> (r: i64)
        requires
            self.in_range(),
            other.in_range(),
        ensures
            r == spec_dist2(*self, *other),
            r >= 0,
    {
        let dx = self.coords[0] - other.coords[0];
        let dy = self.coords[1] - other.coords[1];
        proof {
            lemma_square_bound(dx as int, 2 * COORD_LIMIT as int);
            lemma_square_bound(dy as int, 2 * COORD_LIMIT as int);
        }
        dx * dx + dy * dy
    }

    /// Sets the vector to all zeros
    pub fn clear(&mut self)
        ensures
            final(self).coords[0] == 0,
            final(self).coords[1] == 0,
    {
        self.coords = [0, 0];
    }

    /// Checks whether any of the values within the vector have left the
    /// representable coordinate range: the integer analogue of a NaN check,
    /// flagging irrecoverable numeric divergence.
    pub fn is_nan(&self) -> (r: bool)
        ensures
            r == !self.in_range(),
    {
        let x = self.coords[0];
        let y = self.coords[1];
        x < -COORD_LIMIT || x > COORD_LIMIT || y < -COORD_LIMIT || y > COORD_LIMIT
    }

    /// Component-wise sum of two vectors.
    pub fn add(&self, other: &VecN) -> (r: VecN)
        requires
            i64::MIN <= self.coords[0] + other.coords[0] <= i64::MAX,
            i64::MIN <= self.coords[1] + other.coords[1] <= i64::MAX,
        ensures
            r.coords[0] == self.coords[0] + other.coords[0],
            r.coords[1] == self.coords[1] + other.coords[1],
    {
        VecN { coords: [self.coords[0] + other.coords[0], self.coords[1] + other.coords[1]] }
    }

    /// Component-wise difference of two vectors.
    pub fn sub(&self, other: &VecN) -> (r: VecN)
        requires
            i64::MIN <= self.coords[0] - other.coords[0] <= i64::MAX,
            i64::MIN <= self.coords[1] - other.coords[1] <= i64::MAX,
        ensures
            r.coords[0] == self.coords[0] - other.coords[0],
            r.coords[1] == self.coords[1] - other.coords[1],
    {
        VecN { coords: [self.coords[0] - other.coords[0], self.coords[1] - other.coords[1]] }
    }

    /// Each component multiplied by a scalar.
    pub fn scale(&self, k: i64) -> (r: VecN)
        requires
            i64::MIN <= self.coords[0] * k <= i64::MAX,
            i64::MIN <= self.coords[1] * k <= i64::MAX,
        ensures
            r.coords[0] == self.coords[0] * k,
            r.coords[1] == self.coords[1] * k,
    {
        VecN { coords: [self.coords[0] * k, self.coords[1] * k] }
    }

    /// Each component divided by a positive scalar, rounding toward zero.
    pub fn div_scalar(&self, k: i64) -> (r: VecN)
        requires
            k >= 1,
        ensures
            r.coords[0] == tdiv(self.coords[0] as int, k as int),
            r.coords[1] == tdiv(self.coords[1] as int, k as int),
    {
        VecN { coords: [div_trunc(self.coords[0], k), div_trunc(self.coords[1], k)] }
    }

}

} // verus!

