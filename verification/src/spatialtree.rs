//! A spatial mass tree (Barnes-Hut) for the simulated dimensions.
//!
//! Each node keeps one aggregated point mass — a center of mass and a total
//! mass — for everything inserted beneath it, together with the region it
//! covers and up to `DIM_POW` owned children, one per octant. The tree is
//! built incrementally and rebuilt wholesale each step. Its invariant
//! ([`SpatialTree::wf`]) ties every node's mass to the exact sum of its
//! children's masses, which gives mass conservation across any insertion
//! sequence; the center of mass follows the exact incremental
//! mass-weighted-average update.

use vstd::prelude::*;
use crate::vector::{VecN, spec_dist2, spec_weighted_avg};
use crate::boundingbox::BoundingBox;
use crate::body::Body;
use crate::config::SimConfig;
use crate::force::{force_between, spec_force_comp};
use crate::arith::{isqrt, sqrt_i64, div_trunc, lemma_mul_abs_le, lemma_tdiv_abs_bound, lemma_mul_le, lemma_square_bound};
use crate::consts::{COORD_LIMIT, MASS_LIMIT, FORCE_LIMIT, DIM_POW, MIN_CELL_SIZE};

verus! {

/// Whether a node is far enough from an evaluation point that the whole
/// subtree may be treated as one point mass: the Barnes-Hut criterion
/// `size / dist < theta`, stated exactly over the integer ratio.
pub open spec fn spec_admissible(node: SpatialTree, pos: VecN, cfg: SimConfig) -> bool {
    let dist = isqrt(spec_dist2(pos, node.pos));
    (node.bb.max.coords[0] - node.bb.min.coords[0]) * cfg.theta_den < dist * cfg.theta_num
}

/// Component `i` of the net force a subtree exerts on a body of mass `mass`
/// at `pos`: the direct softened force at a leaf or at an admissible node,
/// and the sum of the children's contributions otherwise.
pub open spec fn spec_node_force(
    node: SpatialTree,
    pos: VecN,
    mass: int,
    cfg: SimConfig,
    i: int,
) -> int
    decreases node, (DIM_POW + 1) as int,
{
    if !node.spec_has_children() || spec_admissible(node, pos, cfg) {
        spec_force_comp(mass, pos, node.mass as int, node.pos, cfg, i)
    } else {
        spec_children_force_prefix(node, pos, mass, cfg, i, DIM_POW as int)
    }
}

/// The summed force contributions of the children in octants below `n`.
pub open spec fn spec_children_force_prefix(
    node: SpatialTree,
    pos: VecN,
    mass: int,
    cfg: SimConfig,
    i: int,
    n: int,
) -> int
    decreases node, n,
        via children_force_prefix_decreases
{
    if n <= 0 || node.children.len() != DIM_POW {
        0
    } else {
        spec_children_force_prefix(node, pos, mass, cfg, i, n - 1) + (if 0 <= n - 1 < DIM_POW
            && node.children[n - 1] is Some {
            spec_node_force(*node.children[n - 1].unwrap(), pos, mass, cfg, i)
        } else {
            0
        })
    }
}

#[via_fn]
proof fn children_force_prefix_decreases(
    node: SpatialTree,
    pos: VecN,
    mass: int,
    cfg: SimConfig,
    i: int,
    n: int,
) {
    broadcast use vstd::std_specs::vec::group_vec_axioms;

    if n > 0 && node.children.len() == DIM_POW && 0 <= n - 1 < DIM_POW && node.children[n - 1]
        is Some {
        let ch = node.children;
        let o = ch@[n - 1];
        assert(decreases_to!(node => ch));
        assert(decreases_to!(ch => ch@));
        assert(decreases_to!(ch@ => ch@[n - 1]));
        assert(decreases_to!(o => o->0));
        assert(decreases_to!(node => *o.unwrap()));
    }
}

/// A spatial mass tree node
#[derive(Debug)]
pub struct SpatialTree {
    /// Position of the center of mass of everything beneath this node
    pub pos: VecN,

    /// Aggregate mass of this tree node
    pub mass: i64,

    /// The region of space this node covers
    pub bb: BoundingBox,

    /// Children of this tree node, one slot per octant
    pub children: Vec<Option<Box<SpatialTree>>>,
}

impl SpatialTree {
    /// The mass held by the child in octant `i`, zero for an empty slot.
    pub open spec fn child_mass(self, i: int) -> int {
        if self.children[i] is Some {
            self.children[i].unwrap().mass as int
        } else {
            0
        }
    }

    /// The total mass of the children in octants below `n`.
    pub open spec fn children_mass_prefix(self, n: int) -> int
        decreases n,
    {
        if n <= 0 {
            0
        } else {
            self.children_mass_prefix(n - 1) + self.child_mass(n - 1)
        }
    }

    /// The total mass of all children.
    pub open spec fn children_mass_sum(self) -> int {
        self.children_mass_prefix(DIM_POW as int)
    }

    /// Whether any octant holds a child.
    pub open spec fn spec_has_children(self) -> bool {
        exists|i: int| 0 <= i < DIM_POW && self.children[i] is Some
    }

    /// Well-formedness: every node covers a well-formed region, holds a
    /// bounded aggregate within the coordinate range, has one slot per
    /// octant, each present child is well-formed, non-empty, covers its
    /// octant's sub-region, and the masses of the children of a subdivided
    /// node sum exactly to the node's own aggregate mass. An empty node
    /// (zero mass) has no children.
    pub open spec fn wf(self) -> bool
        decreases self,
    {
        &&& self.bb.wf()
        &&& self.pos.in_range()
        &&& 0 <= self.mass <= MASS_LIMIT
        &&& self.children.len() == DIM_POW
        &&& (self.mass == 0 ==> !self.spec_has_children())
        &&& (forall|i: int|
            0 <= i < DIM_POW && self.children[i] is Some ==> {
                &&& (#[trigger] self.children[i]).unwrap().wf()
                &&& self.children[i].unwrap().mass > 0
                &&& self.children[i].unwrap().bb == self.bb.spec_child(i)
            })
        &&& (self.spec_has_children() ==> self.children_mass_sum() == self.mass)
    }

    /// Every child's mass is at most the prefix sums that include it; in a
    /// well-formed subdivided node, no child outweighs the node.
    proof fn lemma_child_mass_le_prefix(self, q: int, n: int)
        requires
            forall|i: int|
                0 <= i < DIM_POW && self.children[i] is Some ==> (#[trigger] self.children[i]).unwrap().mass > 0,
            0 <= q < n <= DIM_POW,
        ensures
            self.child_mass(q) <= self.children_mass_prefix(n),
            self.children_mass_prefix(n) >= 0,
        decreases n,
    {
        if n > 0 {
            if q == n - 1 {
                self.lemma_prefix_nonneg(n - 1);
            } else {
                self.lemma_child_mass_le_prefix(q, n - 1);
            }
        }
    }

    /// Prefix sums of child masses are non-negative.
    proof fn lemma_prefix_nonneg(self, n: int)
        requires
            forall|i: int|
                0 <= i < DIM_POW && self.children[i] is Some ==> (#[trigger] self.children[i]).unwrap().mass > 0,
            n <= DIM_POW,
        ensures
            self.children_mass_prefix(n) >= 0,
        decreases n,
    {
        if n > 0 {
            self.lemma_prefix_nonneg(n - 1);
        }
    }

    /// Prefix sums of child masses grow with the number of octants covered.
    proof fn lemma_prefix_mono(self, a: int, b: int)
        requires
            forall|i: int|
                0 <= i < DIM_POW && self.children[i] is Some ==> (#[trigger] self.children[i]).unwrap().mass > 0,
            0 <= a <= b <= DIM_POW,
        ensures
            self.children_mass_prefix(a) <= self.children_mass_prefix(b),
        decreases b,
    {
        if b > a {
            self.lemma_prefix_mono(a, b - 1);
        }
    }

    /// A prefix sum over all-empty octants is zero.
    proof fn lemma_prefix_none(self, n: int)
        requires
            forall|i: int| 0 <= i < DIM_POW ==> self.children[i] is None,
            n <= DIM_POW,
        ensures
            self.children_mass_prefix(n) == 0,
        decreases n,
    {
        if n > 0 {
            self.lemma_prefix_none(n - 1);
        }
    }

    /// Prefix sums agree between two nodes whose octants hold equal children.
    proof fn lemma_prefix_equal(a: Self, b: Self, n: int)
        requires
            forall|i: int| 0 <= i < n ==> a.children[i] == b.children[i],
        ensures
            a.children_mass_prefix(n) == b.children_mass_prefix(n),
        decreases n,
    {
        if n > 0 {
            Self::lemma_prefix_equal(a, b, n - 1);
        }
    }

    /// Changing the child of one octant moves every covering prefix sum by
    /// exactly the change of that octant's mass.
    proof fn lemma_prefix_change(a: Self, b: Self, q: int, n: int)
        requires
            forall|i: int| 0 <= i < DIM_POW && i != q ==> a.children[i] == b.children[i],
            0 <= q < DIM_POW,
            n <= DIM_POW,
        ensures
            n <= q ==> b.children_mass_prefix(n) == a.children_mass_prefix(n),
            n > q ==> b.children_mass_prefix(n) == a.children_mass_prefix(n) + b.child_mass(q)
                - a.child_mass(q),
        decreases n,
    {
        if n > 0 {
            Self::lemma_prefix_change(a, b, q, n - 1);
        }
    }

    /// Constructs a new tree with no children covering the region `bb`
    pub fn empty(bb: BoundingBox) -> (t: Self)
        requires
            bb.wf(),
        ensures
            t.wf(),
            t.mass == 0,
            t.bb == bb,
            t.pos.coords[0] == 0,
            t.pos.coords[1] == 0,
            !t.spec_has_children(),
    {
        let mut children: Vec<Option<Box<SpatialTree>>> = Vec::new();
        children.push(None);
        children.push(None);
        children.push(None);
        children.push(None);
        SpatialTree { pos: VecN::from(0), mass: 0, bb, children }
    }

    /// Checks if this node is a leaf (has no children)
    pub fn is_leaf(&self) -> (r: bool)
        requires
            self.children.len() == DIM_POW,
        ensures
            r == !self.spec_has_children(),
    {
        let r = self.children[0].is_none() && self.children[1].is_none()
            && self.children[2].is_none() && self.children[3].is_none();
        proof {
            if !r {
                assert(self.spec_has_children());
            }
            if r {
                assert(forall|i: int| 0 <= i < DIM_POW ==> self.children[i] is None);
            }
        }
        r
    }

    /// Constructs a new child with no children of its own under the node's
    /// octant `idx`, covering that octant's sub-region.
    pub fn new_child(&mut self, idx: usize, pos: VecN, mass: i64)
        requires
            idx < DIM_POW,
            old(self).children.len() == DIM_POW,
            old(self).children[idx as int] is None,
            old(self).bb.wf(),
        ensures
            final(self).pos == old(self).pos,
            final(self).mass == old(self).mass,
            final(self).bb == old(self).bb,
            final(self).children.len() == DIM_POW,
            final(self).children[idx as int] is Some,
            ({
                let c = final(self).children[idx as int].unwrap();
                &&& c.pos == pos
                &&& c.mass == mass
                &&& c.bb == old(self).bb.spec_child(idx as int)
                &&& !c.spec_has_children()
                &&& c.children.len() == DIM_POW
            }),
            forall|i: int|
                0 <= i < DIM_POW && i != idx ==> final(self).children[i] == old(self).children[i],
    {
        let child_bb = self.bb.child(idx);
        let mut children: Vec<Option<Box<SpatialTree>>> = Vec::new();
        children.push(None);
        children.push(None);
        children.push(None);
        children.push(None);
        let node = SpatialTree { pos, mass, bb: child_bb, children };
        self.children[idx] = Some(Box::new(node));
    }

    /// Update the center of mass of this node: the exact mass-weighted
    /// average of the node's aggregate and the new point.
    pub fn update_m_center(&mut self, pos: VecN, mass: i64)
        requires
            old(self).pos.in_range(),
            pos.in_range(),
            0 <= old(self).mass,
            1 <= mass,
            old(self).mass + mass <= MASS_LIMIT,
        ensures
            final(self).mass == old(self).mass + mass,
            final(self).pos == spec_weighted_avg(
                old(self).pos,
                old(self).mass as int,
                pos,
                mass as int,
            ),
            final(self).pos.in_range(),
            final(self).bb == old(self).bb,
            final(self).children == old(self).children,
    {
        let new_mass = self.mass + mass;
        proof {
            lemma_mul_abs_le(
                self.pos.coords[0] as int,
                COORD_LIMIT as int,
                self.mass as int,
                self.mass as int,
            );
            lemma_mul_abs_le(
                self.pos.coords[1] as int,
                COORD_LIMIT as int,
                self.mass as int,
                self.mass as int,
            );
            lemma_mul_abs_le(pos.coords[0] as int, COORD_LIMIT as int, mass as int, mass as int);
            lemma_mul_abs_le(pos.coords[1] as int, COORD_LIMIT as int, mass as int, mass as int);
            lemma_tdiv_abs_bound(
                self.mass * self.pos.coords[0] + mass * pos.coords[0],
                new_mass as int,
                COORD_LIMIT as int,
            );
            lemma_tdiv_abs_bound(
                self.mass * self.pos.coords[1] + mass * pos.coords[1],
                new_mass as int,
                COORD_LIMIT as int,
            );
        }
        let nx = div_trunc(self.mass * self.pos.coords[0] + mass * pos.coords[0], new_mass);
        let ny = div_trunc(self.mass * self.pos.coords[1] + mass * pos.coords[1], new_mass);
        let np = VecN::new([nx, ny]);
        proof {
            let sw = spec_weighted_avg(self.pos, self.mass as int, pos, mass as int);
            assert(np.coords =~= sw.coords);
        }
        self.pos = np;
        self.mass = new_mass;
    }

    /// Splits a childless node holding the combined aggregate of two points
    /// into the subtree that separates them: chain nodes carrying the
    /// combined aggregate are created one level at a time, re-deriving the
    /// region each level, until the two points fall into different octants;
    /// a cell too narrow to separate them keeps them merged (the
    /// collision-epsilon rule).
    fn split_insert(&mut self, bb: BoundingBox, p0: VecN, m0: i64, p1: VecN, m1: i64)
        requires
            bb == old(self).bb,
            bb.wf(),
            old(self).children.len() == DIM_POW,
            !old(self).spec_has_children(),
            old(self).pos.in_range(),
            p0.in_range(),
            p1.in_range(),
            1 <= m0,
            1 <= m1,
            old(self).mass == m0 + m1,
            old(self).mass <= MASS_LIMIT,
        ensures
            final(self).wf(),
            final(self).pos == old(self).pos,
            final(self).mass == old(self).mass,
            final(self).bb == bb,
            bb.max.coords[0] - bb.min.coords[0] > MIN_CELL_SIZE ==> final(self).spec_has_children(),
            bb.spec_quadrant(p0) != bb.spec_quadrant(p1) ==> final(self).spec_has_children(),
        decreases bb.max.coords[0] - bb.min.coords[0],
    {
        proof {
            assert(forall|i: int| 0 <= i < DIM_POW ==> old(self).children[i] is None);
        }
        let q0 = bb.quadrant(&p0);
        let q1 = bb.quadrant(&p1);
        if q0 != q1 {
            let ghost s0 = *self;
            self.new_child(q0, p0, m0);
            let ghost s1 = *self;
            self.new_child(q1, p1, m1);
            proof {
                let s2 = *self;
                s0.lemma_prefix_none(DIM_POW as int);
                Self::lemma_prefix_change(s0, s1, q0 as int, DIM_POW as int);
                Self::lemma_prefix_change(s1, s2, q1 as int, DIM_POW as int);
                assert(s2.children_mass_sum() == m0 + m1);
                assert(s2.children[q0 as int].unwrap().wf());
                assert(s2.children[q1 as int].unwrap().wf());
                assert(s2.wf());
            }
        } else if bb.diff(0) <= MIN_CELL_SIZE {
            // the cell can no longer separate the two points: they stay
            // merged in this node's aggregate
        } else {
            proof {
                bb.lemma_child_shrinks(q0 as int);
            }
            let child_bb = bb.child(q0);
            let mut node = SpatialTree::empty(child_bb);
            node.pos = self.pos;
            node.mass = self.mass;
            node.split_insert(child_bb, p0, m0, p1, m1);
            let ghost s0 = *self;
            self.children[q0] = Some(Box::new(node));
            proof {
                let s2 = *self;
                s0.lemma_prefix_none(DIM_POW as int);
                Self::lemma_prefix_change(s0, s2, q0 as int, DIM_POW as int);
                assert(s2.children_mass_sum() == s2.mass);
                assert(s2.wf());
            }
        }
    }

    /// Inserts a point mass into the tree built over the region `bb` (the
    /// box the tree was created with). A point of non-positive mass makes no
    /// physical contribution and leaves the tree exactly unchanged. A
    /// positive mass raises the root's aggregate mass by exactly that mass
    /// and moves the root's center of mass by the exact mass-weighted
    /// average update.
    pub fn insert(&mut self, pos: VecN, mass: i64, bb: BoundingBox)
        requires
            old(self).wf(),
            bb == old(self).bb,
            pos.in_range(),
            mass > 0 ==> old(self).mass + mass <= MASS_LIMIT,
        ensures
            final(self).wf(),
            final(self).bb == old(self).bb,
            mass <= 0 ==> *final(self) == *old(self),
            mass > 0 ==> final(self).mass == old(self).mass + mass,
            mass > 0 ==> final(self).pos == (if old(self).mass == 0 {
                pos
            } else {
                spec_weighted_avg(old(self).pos, old(self).mass as int, pos, mass as int)
            }),
            mass > 0 && old(self).mass == 0 ==> !final(self).spec_has_children(),
            mass > 0 && old(self).spec_has_children() ==> final(self).spec_has_children(),
            (mass > 0 && old(self).mass > 0 && !old(self).spec_has_children()
                && spec_dist2(old(self).pos, pos) != 0
                && bb.max.coords[0] - bb.min.coords[0] > MIN_CELL_SIZE)
                ==> final(self).spec_has_children(),
        decreases *old(self),
    {
        if mass <= 0 {
            return;
        }
        if self.mass <= 0 {
            self.pos = pos;
            self.mass = mass;
            return;
        }
        let q = bb.quadrant(&pos);
        let has_child = self.children[q].is_some();
        if has_child {
            proof {
                self.lemma_child_mass_le_prefix(q as int, DIM_POW as int);
            }
            let child_bb = bb.child(q);
            self.update_m_center(pos, mass);
            let ghost s1 = *self;
            let taken = self.children[q].take();
            match taken {
                Some(mut b) => {
                    proof {
                        assert(decreases_to!(*old(self) => *b));
                    }
                    b.insert(pos, mass, child_bb);
                    self.children[q] = Some(b);
                    proof {
                        let s2 = *self;
                        Self::lemma_prefix_equal(*old(self), s1, DIM_POW as int);
                        Self::lemma_prefix_change(s1, s2, q as int, DIM_POW as int);
                        assert(s2.children_mass_sum() == s2.mass);
                        assert(s2.wf());
                    }
                },
                None => {
                    proof {
                        assert(false);
                    }
                },
            }
        } else if self.is_leaf() {
            // a leaf holding a single aggregated point
            let d2 = self.pos.dist2(&pos);
            if d2 == 0 {
                // closer than the collision epsilon: merge directly into the
                // node's aggregate, guarding against unbounded subdivision
                self.update_m_center(pos, mass);
            } else {
                let p0 = self.pos;
                let m0 = self.mass;
                self.update_m_center(pos, mass);
                self.split_insert(bb, p0, m0, pos, mass);
            }
        } else {
            // an interior node with a free octant for the new point
            self.update_m_center(pos, mass);
            let ghost s1 = *self;
            self.new_child(q, pos, mass);
            proof {
                let s2 = *self;
                Self::lemma_prefix_equal(*old(self), s1, DIM_POW as int);
                Self::lemma_prefix_change(s1, s2, q as int, DIM_POW as int);
                assert(s2.children[q as int].unwrap().wf());
                assert(s2.children_mass_sum() == s2.mass);
                assert(s2.wf());
            }
        }
    }

    /// Computes the net gravitational force this tree exerts on a body, by
    /// the Barnes-Hut rule: a leaf, or an internal node far enough away that
    /// `size / dist < theta`, acts as a single point mass at its center of
    /// mass; any other node contributes the sum of its children's forces.
    /// Each component of the result is bounded by `g * mass * self.mass`.
    pub fn compute_force(&self, body: &Body, cfg: &SimConfig) -> (f: VecN)
        requires
            self.wf(),
            cfg.valid(),
            body.pos.in_range(),
            0 <= body.mass <= MASS_LIMIT,
        ensures
            f.coords[0] == spec_node_force(*self, body.pos, body.mass as int, *cfg, 0),
            f.coords[1] == spec_node_force(*self, body.pos, body.mass as int, *cfg, 1),
            -(cfg.g * body.mass * self.mass) <= f.coords[0] <= cfg.g * body.mass * self.mass,
            -(cfg.g * body.mass * self.mass) <= f.coords[1] <= cfg.g * body.mass * self.mass,
        decreases *self,
    {
        let ghost gm = cfg.g * body.mass;
        proof {
            lemma_mul_le(cfg.g as int, MASS_LIMIT as int, body.mass as int, MASS_LIMIT as int);
            lemma_mul_le(gm, (MASS_LIMIT * MASS_LIMIT) as int, self.mass as int, MASS_LIMIT as int);
            assert(gm * self.mass == cfg.g * body.mass * self.mass) by (nonlinear_arith)
                requires
                    gm == cfg.g * body.mass,
            {}
        }
        if self.is_leaf() {
            return force_between(body.mass, &body.pos, self.mass, &self.pos, cfg);
        }
        let d2 = body.pos.dist2(&self.pos);
        proof {
            lemma_square_bound((body.pos.coords[0] - self.pos.coords[0]) as int, 2 * COORD_LIMIT as int);
            lemma_square_bound((body.pos.coords[1] - self.pos.coords[1]) as int, 2 * COORD_LIMIT as int);
        }
        let dist = sqrt_i64(d2);
        let size = self.bb.diff(0);
        proof {
            lemma_mul_le(size as int, 2 * COORD_LIMIT as int, cfg.theta_den as int, MASS_LIMIT as int);
            lemma_mul_le(dist as int, 0xB504_F334, cfg.theta_num as int, MASS_LIMIT as int);
        }
        if size * cfg.theta_den < dist * cfg.theta_num {
            return force_between(body.mass, &body.pos, self.mass, &self.pos, cfg);
        }
        let mut fx: i64 = 0;
        let mut fy: i64 = 0;
        let mut i: usize = 0;
        proof {
            self.lemma_prefix_nonneg(DIM_POW as int);
        }
        while i < DIM_POW
            invariant
                self.wf(),
                cfg.valid(),
                body.pos.in_range(),
                0 <= body.mass <= MASS_LIMIT,
                i <= DIM_POW,
                gm == cfg.g * body.mass,
                0 <= gm,
                gm * self.mass <= FORCE_LIMIT,
                fx == spec_children_force_prefix(*self, body.pos, body.mass as int, *cfg, 0, i as int),
                fy == spec_children_force_prefix(*self, body.pos, body.mass as int, *cfg, 1, i as int),
                -(gm * self.children_mass_prefix(i as int)) <= fx <= gm * self.children_mass_prefix(i as int),
                -(gm * self.children_mass_prefix(i as int)) <= fy <= gm * self.children_mass_prefix(i as int),
            decreases DIM_POW - i,
        {
            proof {
                self.lemma_prefix_nonneg(i as int);
                self.lemma_prefix_mono(i as int, (i + 1) as int);
                self.lemma_prefix_mono((i + 1) as int, DIM_POW as int);
                assert(gm * self.children_mass_prefix((i + 1) as int) <= gm * self.children_mass_sum())
                    by (nonlinear_arith)
                    requires
                        0 <= gm,
                        self.children_mass_prefix((i + 1) as int) <= self.children_mass_sum(),
                {}
                assert(gm * self.children_mass_prefix(i as int) <= gm * self.children_mass_prefix(
                    (i + 1) as int,
                )) by (nonlinear_arith)
                    requires
                        0 <= gm,
                        self.children_mass_prefix(i as int) <= self.children_mass_prefix((i + 1) as int),
                {}
            }
            if let Some(b) = &self.children[i] {
                let cf = b.compute_force(body, cfg);
                proof {
                    assert(gm * self.children_mass_prefix(i as int) + gm * self.child_mass(i as int)
                        == gm * self.children_mass_prefix((i + 1) as int)) by (nonlinear_arith)
                        requires
                            self.children_mass_prefix((i + 1) as int) == self.children_mass_prefix(
                                i as int,
                            ) + self.child_mass(i as int),
                    {}
                }
                fx = fx + cf.coords[0];
                fy = fy + cf.coords[1];
            }
            i = i + 1;
        }
        proof {
            assert(self.children_mass_sum() == self.mass);
        }
        VecN::new([fx, fy])
    }
}

/// The root aggregate after folding the first `k` insertions, as a center
/// of mass and a total: each positive-mass point raises the total by its
/// mass exactly and moves the center by the exact incremental
/// mass-weighted-average update; non-positive masses change nothing.
pub open spec fn spec_root_aggregate(s: Seq<Body>, k: int) -> (VecN, int)
    decreases k,
{
    if k <= 0 {
        (VecN { coords: [0, 0] }, 0)
    } else {
        let (p, m) = spec_root_aggregate(s, k - 1);
        let b = s[k - 1];
        if b.mass <= 0 {
            (p, m)
        } else if m == 0 {
            (b.pos, b.mass as int)
        } else {
            (spec_weighted_avg(p, m, b.pos, b.mass as int), m + b.mass)
        }
    }
}

/// Mass conservation: building the tree over a whole population leaves the
/// root's aggregate mass exactly the sum of all inserted masses (points of
/// non-positive mass are ignored and contribute nothing), and the root's
/// center of mass is the exact fold of the incremental weighted-average
/// updates.
pub fn build_spatialtree(bodies: &Vec<Body>, cfg: &SimConfig) -> (t: SpatialTree)
    requires
        crate::implementations::valid_population(bodies@),
        cfg.valid(),
    ensures
        t.wf(),
        t.bb.min.coords[0] == 0 && t.bb.min.coords[1] == 0,
        t.bb.max.coords[0] == cfg.max_dist && t.bb.max.coords[1] == cfg.max_dist,
        t.mass == crate::quadtree::spec_bodies_mass(bodies@),
        t.pos == spec_root_aggregate(bodies@, bodies@.len() as int).0,
        t.mass == spec_root_aggregate(bodies@, bodies@.len() as int).1,
{
    let bb = BoundingBox::from(0, cfg.max_dist);
    let mut t = SpatialTree::empty(bb);
    let n = bodies.len();
    let mut k: usize = 0;
    proof {
        assert(crate::quadtree::additive_foldr(crate::quadtree::mass_fold()));
        assert(bodies@.subrange(0, 0) =~= Seq::<Body>::empty());
        assert(t.pos.coords =~= spec_root_aggregate(bodies@, 0).0.coords);
    }
    while k < n
        invariant
            k <= n,
            n == bodies.len(),
            cfg.valid(),
            crate::implementations::valid_population(bodies@),
            t.wf(),
            t.bb == bb,
            bb.min.coords[0] == 0 && bb.min.coords[1] == 0,
            bb.max.coords[0] == cfg.max_dist && bb.max.coords[1] == cfg.max_dist,
            t.mass == crate::quadtree::spec_bodies_mass(bodies@.subrange(0, k as int)),
            t.pos == spec_root_aggregate(bodies@, k as int).0,
            t.mass == spec_root_aggregate(bodies@, k as int).1,
        decreases n - k,
    {
        let b = bodies[k];
        proof {
            assert(crate::quadtree::additive_foldr(crate::quadtree::mass_fold()));
            crate::quadtree::lemma_additive_fold_snoc(
                bodies@,
                crate::quadtree::mass_fold(),
                k as int,
            );
            let rest = bodies@.subrange(k as int + 1, n as int);
            assert(bodies@ =~= bodies@.subrange(0, k as int + 1) + rest);
            crate::quadtree::lemma_additive_fold_concat(
                bodies@.subrange(0, k as int + 1),
                rest,
                crate::quadtree::mass_fold(),
            );
            assert(forall|j: int| 0 <= j < rest.len() ==> (#[trigger] rest[j]).valid());
            crate::quadtree::lemma_bodies_mass_nonneg(rest);
            crate::quadtree::lemma_bodies_mass_nonneg(bodies@.subrange(0, k as int));
        }
        t.insert(b.pos, b.mass, bb);
        k = k + 1;
    }
    proof {
        assert(bodies@.subrange(0, n as int) =~= bodies@);
    }
    t
}

} // verus!
