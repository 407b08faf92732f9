//! Splitable multidimensional bounding box.
//!
//! An axis-aligned region given by its minimum and maximum corners. The box
//! computes which of its `DIM_POW` octants a point falls into and derives
//! the child region for an octant index; both operations are stated exactly,
//! and a point inside a box is always inside the child derived for its own
//! octant.

use vstd::prelude::*;
use crate::vector::VecN;
use crate::arith::{tdiv, div_trunc};
use crate::consts::DIM_POW;

verus! {

/// An axis-aligned bounding box
#[derive(Clone, Copy, Debug)]
pub struct BoundingBox {
    pub min: VecN,
    pub max: VecN,
}

impl BoundingBox {
    /// A well-formed box: corners within the coordinate range the core
    /// accepts, and no dimension with its corners out of order.
    pub open spec fn wf(self) -> bool {
        &&& self.min.in_range()
        &&& self.max.in_range()
        &&& self.min.coords[0] <= self.max.coords[0]
        &&& self.min.coords[1] <= self.max.coords[1]
    }

    /// Whether a point lies inside the box (corners included).
    pub open spec fn spec_contains(self, pos: VecN) -> bool {
        &&& self.min.coords[0] <= pos.coords[0] <= self.max.coords[0]
        &&& self.min.coords[1] <= pos.coords[1] <= self.max.coords[1]
    }

    /// The center coordinate of dimension `i`: the average of the corners,
    /// rounded toward zero as the executable division does.
    pub open spec fn spec_center(self, i: int) -> int {
        tdiv(self.min.coords[i] + self.max.coords[i], 2)
    }

    /// The octant index of a point: bit `i` is set exactly when the point's
    /// coordinate `i` is at or past the center of dimension `i`.
    pub open spec fn spec_quadrant(self, pos: VecN) -> int {
        (if pos.coords[0] >= self.spec_center(0) {
            1int
        } else {
            0int
        }) + (if pos.coords[1] >= self.spec_center(1) {
            2int
        } else {
            0int
        })
    }

    /// The child region for an octant index: each dimension keeps the half
    /// of the box on the side the octant's bit selects.
    pub open spec fn spec_child(self, q: int) -> BoundingBox {
        let c0 = self.spec_center(0) as i64;
        let c1 = self.spec_center(1) as i64;
        BoundingBox {
            min: VecN {
                coords: [
                    if q % 2 == 1 {
                        c0
                    } else {
                        self.min.coords[0]
                    },
                    if q >= 2 {
                        c1
                    } else {
                        self.min.coords[1]
                    },
                ],
            },
            max: VecN {
                coords: [
                    if q % 2 == 1 {
                        self.max.coords[0]
                    } else {
                        c0
                    },
                    if q >= 2 {
                        self.max.coords[1]
                    } else {
                        c1
                    },
                ],
            },
        }
    }

    /// Creates a new `BoundingBox`, setting all dimensions to `min` and `max`
    pub fn from(min: i64, max: i64) -> (bb: Self)
        ensures
            bb.min.coords[0] == min,
            bb.min.coords[1] == min,
            bb.max.coords[0] == max,
            bb.max.coords[1] == max,
    {
        Self { min: VecN::from(min), max: VecN::from(max) }
    }

    /// Whether a point lies inside the box (corners included).
    pub fn contains(&self, pos: &VecN) -> (r: bool)
        ensures
            r == self.spec_contains(*pos),
    {
        self.min.coords[0] <= pos.coords[0] && pos.coords[0] <= self.max.coords[0]
            && self.min.coords[1] <= pos.coords[1] && pos.coords[1] <= self.max.coords[1]
    }

    /// Returns the center `n` coordinate (average of min and max `n`).
    pub fn center(&self, n: usize) -> (r: i64)
        requires
            n < 2,
            self.wf(),
        ensures
            r == self.spec_center(n as int),
    {
        div_trunc(self.min.coords[n] + self.max.coords[n], 2)
    }

    /// Returns the difference between maximum and minimum `n` coordinates
    pub fn diff(&self, n: usize) -> (r: i64)
        requires
            n < 2,
            self.wf(),
        ensures
            r == self.max.coords[n as int] - self.min.coords[n as int],
            r >= 0,
    {
        self.max.coords[n] - self.min.coords[n]
    }

    /// Returns the index quadrant of a point at position `pos`
    pub fn quadrant(&self, pos: &VecN) -> (idx: usize)
        requires
            self.wf(),
        ensures
            idx == self.spec_quadrant(*pos),
            idx < DIM_POW,
    {
        let mut idx: usize = 0;
        if pos.coords[0] >= self.center(0) {
            idx = idx + 1;
        }
        if pos.coords[1] >= self.center(1) {
            idx = idx + 2;
        }
        idx
    }

    /// Inverse of the `quadrant()` function: returns the subquadrant of this
    /// bounding box for an octant index between `0` and `DIM_POW - 1`.
    pub fn child(&self, quadrant: usize) -> (bb: Self)
        requires
            self.wf(),
            quadrant < DIM_POW,
        ensures
            bb == self.spec_child(quadrant as int),
            bb.wf(),
    {
        proof {
            self.lemma_center_in_box();
        }
        let mut min = self.min;
        let mut max = self.max;
        if quadrant % 2 == 1 {
            min.coords[0] = self.center(0);
        } else {
            max.coords[0] = self.center(0);
        }
        if quadrant >= 2 {
            min.coords[1] = self.center(1);
        } else {
            max.coords[1] = self.center(1);
        }
        let bb = Self { min, max };
        proof {
            let sc = self.spec_child(quadrant as int);
            assert(bb.min.coords =~= sc.min.coords);
            assert(bb.max.coords =~= sc.max.coords);
        }
        bb
    }

    /// The center of every dimension lies between that dimension's corners.
    pub proof fn lemma_center_in_box(self)
        requires
            self.wf(),
        ensures
            self.min.coords[0] <= self.spec_center(0) <= self.max.coords[0],
            self.min.coords[1] <= self.spec_center(1) <= self.max.coords[1],
    {
    }

    /// Once a dimension spans at least two units, both halves of a split are
    /// strictly narrower than the whole.
    pub proof fn lemma_child_shrinks(self, q: int)
        requires
            self.wf(),
            0 <= q < DIM_POW,
            self.max.coords[0] - self.min.coords[0] >= 2,
        ensures
            self.spec_child(q).wf(),
            self.spec_child(q).max.coords[0] - self.spec_child(q).min.coords[0]
                < self.max.coords[0] - self.min.coords[0],
    {
        self.lemma_center_in_box();
    }

    /// Quadrant/child consistency: a point inside a bounding box is inside
    /// the child region derived for that point's own octant.
    pub proof fn lemma_quadrant_child_consistency(self, pos: VecN)
        requires
            self.wf(),
            self.spec_contains(pos),
        ensures
            self.spec_child(self.spec_quadrant(pos)).spec_contains(pos),
    {
        self.lemma_center_in_box();
    }
}

} // verus!
