//! The bucket tree (first-order multipole variant of the spatial tree).
//!
//! Built by bulk insertion: each leaf cell holds up to [`NODE_CAPACITY`] raw
//! bodies; a leaf over capacity whose cell is still above the minimum size
//! subdivides and redistributes its bodies into the `DIM_POW` children by
//! octant. A separate bottom-up pass then computes each node's first-order
//! multipole expansion — the exact mass-weighted centroid of every body at
//! or beneath the node — and its aggregate mass. Force evaluation uses the
//! same admissibility ratio as the spatial tree, approximating an admissible
//! subtree by its aggregate mass at its multipole centroid.

use vstd::prelude::*;
use vstd::assert_multisets_equal;
use vstd::seq_lib::{commutative_foldr, lemma_fold_right_permutation, lemma_multiset_commutative};
use crate::vector::VecN;
use crate::body::Body;
use crate::config::SimConfig;
use crate::force::spec_force_comp;
use crate::arith::lemma_mul_le;
use crate::consts::{COORD_LIMIT, MASS_LIMIT, DIM_POW, NODE_CAPACITY, MIN_CELL_SIZE};

verus! {

/// The mass a body adds to a running total.
pub open spec fn mass_fold() -> spec_fn(Body, int) -> int {
    |b: Body, acc: int| acc + b.mass
}

/// The mass-weighted coordinate a body adds to a running total for
/// dimension `i`.
pub open spec fn wsum_fold(i: int) -> spec_fn(Body, int) -> int {
    |b: Body, acc: int| acc + b.mass * b.pos.coords[i]
}

/// The force contribution of one source body on a probe of mass `qm` at
/// `qpos` with identifier `qid`: zero for the probe itself (self-interaction
/// is skipped by id), the softened two-point force otherwise.
pub open spec fn spec_body_contrib(
    b: Body,
    qpos: VecN,
    qm: int,
    qid: int,
    cfg: SimConfig,
    i: int,
) -> int {
    if b.id == qid {
        0
    } else {
        spec_force_comp(qm, qpos, b.mass as int, b.pos, cfg, i)
    }
}

/// The force contribution a body adds to a running total.
pub open spec fn force_fold(qpos: VecN, qm: int, qid: int, cfg: SimConfig, i: int) -> spec_fn(
    Body,
    int,
) -> int {
    |b: Body, acc: int| acc + spec_body_contrib(b, qpos, qm, qid, cfg, i)
}

/// The total mass of a sequence of bodies.
pub open spec fn spec_bodies_mass(s: Seq<Body>) -> int {
    s.fold_right(mass_fold(), 0)
}

/// The mass-weighted coordinate sum of a sequence of bodies for dimension
/// `i`.
pub open spec fn spec_bodies_wsum(s: Seq<Body>, i: int) -> int {
    s.fold_right(wsum_fold(i), 0)
}

/// The exact direct (pairwise) net force a sequence of bodies exerts on a
/// probe, component `i`, skipping the probe's own id.
pub open spec fn spec_bodies_force(
    s: Seq<Body>,
    qpos: VecN,
    qm: int,
    qid: int,
    cfg: SimConfig,
    i: int,
) -> int {
    s.fold_right(force_fold(qpos, qm, qid, cfg, i), 0)
}

/// A fold function that only ever adds to its accumulator.
pub open spec fn additive_foldr(f: spec_fn(Body, int) -> int) -> bool {
    forall|b: Body, v: int| #[trigger] f(b, v) == v + f(b, 0)
}

/// An additive fold shifts uniformly with its start value.
pub proof fn lemma_additive_fold_offset(s: Seq<Body>, f: spec_fn(Body, int) -> int, v: int)
    requires
        additive_foldr(f),
    ensures
        s.fold_right(f, v) == v + s.fold_right(f, 0),
    decreases s.len(),
{
    if s.len() > 0 {
        lemma_additive_fold_offset(s.drop_last(), f, f(s.last(), v));
        lemma_additive_fold_offset(s.drop_last(), f, f(s.last(), 0));
    }
}

/// Extending a fold over one more element adds that element's contribution.
pub proof fn lemma_additive_fold_snoc(s: Seq<Body>, f: spec_fn(Body, int) -> int, k: int)
    requires
        additive_foldr(f),
        0 <= k < s.len(),
    ensures
        s.subrange(0, k + 1).fold_right(f, 0) == s.subrange(0, k).fold_right(f, 0) + f(s[k], 0),
{
    let t = s.subrange(0, k + 1);
    assert(t.drop_last() =~= s.subrange(0, k));
    lemma_additive_fold_offset(s.subrange(0, k), f, f(s[k], 0));
}

/// An additive fold distributes over concatenation.
pub proof fn lemma_additive_fold_concat(a: Seq<Body>, b: Seq<Body>, f: spec_fn(Body, int) -> int)
    requires
        additive_foldr(f),
    ensures
        (a + b).fold_right(f, 0) == a.fold_right(f, 0) + b.fold_right(f, 0),
{
    let s = a + b;
    s.lemma_fold_right_split(f, 0, a.len() as int);
    assert(s.subrange(0, a.len() as int) =~= a);
    assert(s.subrange(a.len() as int, s.len() as int) =~= b);
    lemma_additive_fold_offset(a, f, b.fold_right(f, 0));
}

/// The total mass of a sequence of bounded-mass bodies is non-negative.
pub proof fn lemma_bodies_mass_nonneg(s: Seq<Body>)
    requires
        forall|j: int| 0 <= j < s.len() ==> (#[trigger] s[j]).valid(),
    ensures
        0 <= spec_bodies_mass(s),
    decreases s.len(),
{
    assert(additive_foldr(mass_fold()));
    if s.len() > 0 {
        assert(s.drop_last() =~= s.subrange(0, s.len() - 1));
        assert(forall|j: int|
            0 <= j < s.drop_last().len() ==> (#[trigger] s.drop_last()[j]).valid());
        lemma_bodies_mass_nonneg(s.drop_last());
        lemma_additive_fold_offset(s.drop_last(), mass_fold(), mass_fold()(s.last(), 0));
    }
}

/// The mass-weighted coordinate sum of bounded bodies is within the
/// coordinate limit times the total mass.
pub proof fn lemma_bodies_wsum_bound(s: Seq<Body>, i: int)
    requires
        forall|j: int| 0 <= j < s.len() ==> (#[trigger] s[j]).valid(),
        0 <= i < 2,
    ensures
        -(COORD_LIMIT * spec_bodies_mass(s)) <= spec_bodies_wsum(s, i) <= COORD_LIMIT
            * spec_bodies_mass(s),
    decreases s.len(),
{
    assert(additive_foldr(mass_fold()));
    assert(additive_foldr(wsum_fold(i)));
    if s.len() > 0 {
        let dl = s.drop_last();
        let b = s.last();
        assert(forall|j: int| 0 <= j < dl.len() ==> (#[trigger] dl[j]).valid());
        lemma_bodies_wsum_bound(dl, i);
        lemma_bodies_mass_nonneg(dl);
        lemma_additive_fold_offset(dl, mass_fold(), mass_fold()(b, 0));
        lemma_additive_fold_offset(dl, wsum_fold(i), wsum_fold(i)(b, 0));
        crate::arith::lemma_mul_abs_le(
            b.pos.coords[i] as int,
            COORD_LIMIT as int,
            b.mass as int,
            b.mass as int,
        );
        assert(b.mass * b.pos.coords[i] == b.pos.coords[i] * b.mass) by (nonlinear_arith);
    }
}

/// The direct force of a body population on a probe is bounded by the
/// gravitational numerator over the population's total mass.
pub proof fn lemma_bodies_force_bound(
    s: Seq<Body>,
    qpos: VecN,
    qm: int,
    qid: int,
    cfg: SimConfig,
    i: int,
    gm: int,
)
    requires
        forall|j: int| 0 <= j < s.len() ==> (#[trigger] s[j]).valid(),
        cfg.valid(),
        qpos.in_range(),
        0 <= qm <= MASS_LIMIT,
        0 <= i < 2,
        gm == cfg.g * qm,
    ensures
        -(gm * spec_bodies_mass(s)) <= spec_bodies_force(s, qpos, qm, qid, cfg, i) <= gm
            * spec_bodies_mass(s),
    decreases s.len(),
{
    let f = force_fold(qpos, qm, qid, cfg, i);
    assert(additive_foldr(mass_fold()));
    assert(additive_foldr(f));
    crate::arith::lemma_mul_le(cfg.g as int, MASS_LIMIT as int, qm, MASS_LIMIT as int);
    if s.len() > 0 {
        let dl = s.drop_last();
        let b = s.last();
        assert(forall|j: int| 0 <= j < dl.len() ==> (#[trigger] dl[j]).valid());
        lemma_bodies_force_bound(dl, qpos, qm, qid, cfg, i, gm);
        lemma_bodies_mass_nonneg(dl);
        lemma_additive_fold_offset(dl, mass_fold(), mass_fold()(b, 0));
        lemma_additive_fold_offset(dl, f, f(b, 0));
        crate::force::lemma_force_comp_bound(qm, qpos, b.mass as int, b.pos, cfg, i);
        assert(-(gm * b.mass) <= spec_body_contrib(b, qpos, qm, qid, cfg, i) <= gm * b.mass)
            by (nonlinear_arith)
            requires
                gm == cfg.g * qm,
                -(cfg.g * qm * b.mass) <= spec_body_contrib(b, qpos, qm, qid, cfg, i) <= cfg.g * qm
                    * b.mass || spec_body_contrib(b, qpos, qm, qid, cfg, i) == 0,
                0 <= gm,
                0 <= b.mass,
        {}
        assert(gm * spec_bodies_mass(dl) + gm * b.mass == gm * spec_bodies_mass(s))
            by (nonlinear_arith)
            requires
                spec_bodies_mass(s) == spec_bodies_mass(dl) + b.mass,
        {}
    }
}

/// A node of the bucket tree
#[derive(Debug)]
pub struct QuadTreeNode {
    /// Geometric center of this cell
    pub center: VecN,

    /// Full width of this cell
    pub size: i64,

    /// The bodies held directly by this cell (leaves only)
    pub bodies: Vec<Body>,

    /// First-order multipole expansion: the exact mass-weighted centroid of
    /// every body at or beneath this node, set by the aggregation pass
    pub multipole_expansion: VecN,

    /// Aggregate mass of every body at or beneath this node, set by the
    /// aggregation pass
    pub mass: i64,

    /// The `DIM_POW` children of a subdivided cell; empty for a leaf
    pub children: Vec<QuadTreeNode>,
}

/// Every body held at or beneath a node, own bodies first, then the
/// children's in octant order.
pub open spec fn subtree_bodies(node: QuadTreeNode) -> Seq<Body>
    decreases node, (DIM_POW + 1) as int,
{
    node.bodies@ + child_bodies_prefix(node, DIM_POW as int)
}

/// The bodies beneath the children in octants below `n`.
pub open spec fn child_bodies_prefix(node: QuadTreeNode, n: int) -> Seq<Body>
    decreases node, n,
        via child_bodies_prefix_decreases
{
    if n <= 0 || n > DIM_POW || node.children.len() != DIM_POW {
        Seq::empty()
    } else {
        child_bodies_prefix(node, n - 1) + subtree_bodies(node.children[n - 1])
    }
}

#[via_fn]
proof fn child_bodies_prefix_decreases(node: QuadTreeNode, n: int) {
    broadcast use vstd::std_specs::vec::group_vec_axioms;

    if 0 < n <= DIM_POW && node.children.len() == DIM_POW {
        let ch = node.children;
        assert(decreases_to!(node => ch));
        assert(decreases_to!(ch => ch@));
        assert(decreases_to!(ch@ => ch@[n - 1]));
        assert(decreases_to!(node => ch@[n - 1]));
    }
}

impl QuadTreeNode {
    /// Well-formedness: a positive cell width whose cell lies within twice
    /// the coordinate range, a leaf holding only bounded bodies, or a
    /// subdivided node with one child per octant, no bodies of its own, a
    /// width of at least two cell-size floors, and each child half its
    /// width. A leaf wide enough to subdivide holds at most the bucket
    /// capacity of bodies.
    pub open spec fn wf(self) -> bool
        decreases self,
    {
        &&& 0 < self.size
        &&& self.center.coords[0] - self.size >= -(2 * COORD_LIMIT)
        &&& self.center.coords[0] + self.size <= 2 * COORD_LIMIT
        &&& self.center.coords[1] - self.size >= -(2 * COORD_LIMIT)
        &&& self.center.coords[1] + self.size <= 2 * COORD_LIMIT
        &&& (self.children.len() == 0 || self.children.len() == DIM_POW)
        &&& (forall|j: int| 0 <= j < self.bodies.len() ==> (#[trigger] self.bodies[j]).valid())
        &&& (self.children.len() == 0 && self.size >= 2 * MIN_CELL_SIZE
            ==> self.bodies.len() <= NODE_CAPACITY)
        &&& (self.children.len() == DIM_POW ==> {
            &&& self.bodies.len() == 0
            &&& self.size >= 2 * MIN_CELL_SIZE
            &&& forall|i: int|
                0 <= i < DIM_POW ==> {
                    &&& (#[trigger] self.children[i]).wf()
                    &&& self.children[i].size == crate::arith::tdiv(self.size as int, 2)
                }
        })
    }

    /// Every body at or beneath a well-formed node is a bounded body.
    pub proof fn lemma_subtree_bodies_valid(self)
        requires
            self.wf(),
        ensures
            forall|j: int|
                0 <= j < subtree_bodies(self).len() ==> (#[trigger] subtree_bodies(self)[j]).valid(),
        decreases self, (DIM_POW + 1) as int,
    {
        self.lemma_prefix_bodies_valid(DIM_POW as int);
        let pre = child_bodies_prefix(self, DIM_POW as int);
        assert forall|j: int| 0 <= j < subtree_bodies(self).len() implies (#[trigger] subtree_bodies(
            self,
        )[j]).valid() by {
            if j < self.bodies@.len() {
                assert(subtree_bodies(self)[j] == self.bodies@[j]);
            } else {
                assert(subtree_bodies(self)[j] == pre[j - self.bodies@.len()]);
            }
        }
    }

    /// Every body beneath the first `n` children of a well-formed node is a
    /// bounded body.
    proof fn lemma_prefix_bodies_valid(self, n: int)
        requires
            self.wf(),
            n <= DIM_POW,
        ensures
            forall|j: int|
                0 <= j < child_bodies_prefix(self, n).len() ==> (#[trigger] child_bodies_prefix(
                    self,
                    n,
                )[j]).valid(),
        decreases self, n,
    {
        if 0 < n <= DIM_POW && self.children.len() == DIM_POW {
            self.lemma_prefix_bodies_valid(n - 1);
            self.children[n - 1].lemma_subtree_bodies_valid();
            let a = child_bodies_prefix(self, n - 1);
            let b = subtree_bodies(self.children[n - 1]);
            assert forall|j: int| 0 <= j < child_bodies_prefix(self, n).len() implies (
            #[trigger] child_bodies_prefix(self, n)[j]).valid() by {
                if j < a.len() {
                    assert(child_bodies_prefix(self, n)[j] == a[j]);
                } else {
                    assert(child_bodies_prefix(self, n)[j] == b[j - a.len()]);
                }
            }
        }
    }

    /// The aggregation pass has run: every node's `mass` is the exact total
    /// mass beneath it, and its multipole expansion is the exact mass-weighted
    /// centroid of the bodies beneath it (the zero vector for an empty
    /// subtree).
    pub open spec fn aggregated(self) -> bool
        decreases self,
    {
        &&& 0 <= self.mass <= MASS_LIMIT
        &&& self.mass == spec_bodies_mass(subtree_bodies(self))
        &&& self.multipole_expansion.in_range()
        &&& (self.mass > 0 ==> {
            &&& self.multipole_expansion.coords[0] == crate::arith::tdiv(
                spec_bodies_wsum(subtree_bodies(self), 0),
                self.mass as int,
            )
            &&& self.multipole_expansion.coords[1] == crate::arith::tdiv(
                spec_bodies_wsum(subtree_bodies(self), 1),
                self.mass as int,
            )
        })
        &&& (self.mass == 0 ==> self.multipole_expansion.coords[0] == 0
            && self.multipole_expansion.coords[1] == 0)
        &&& (self.children.len() == DIM_POW ==> forall|i: int|
            0 <= i < DIM_POW ==> (#[trigger] self.children[i]).aggregated())
    }
}

/// The octant of a point relative to a cell center: bit `i` is set exactly
/// when the point's coordinate `i` is at or past the center's.
pub open spec fn spec_quadrant_of(center: VecN, pos: VecN) -> int {
    (if pos.coords[0] >= center.coords[0] {
        1int
    } else {
        0int
    }) + (if pos.coords[1] >= center.coords[1] {
        2int
    } else {
        0int
    })
}

impl QuadTreeNode {
    /// Prefix body sequences agree between two subdivided nodes whose
    /// octants hold equal children; replacing one octant's child trades
    /// exactly that child's bodies in the prefix multiset.
    proof fn lemma_prefix_change(a: Self, b: Self, q: int, n: int)
        requires
            a.children.len() == DIM_POW,
            b.children.len() == DIM_POW,
            forall|i: int| 0 <= i < DIM_POW && i != q ==> a.children[i] == b.children[i],
            0 <= q < DIM_POW,
            n <= DIM_POW,
        ensures
            n <= q ==> child_bodies_prefix(b, n) == child_bodies_prefix(a, n),
            n > q ==> child_bodies_prefix(b, n).to_multiset().add(
                subtree_bodies(a.children[q]).to_multiset(),
            ) =~= child_bodies_prefix(a, n).to_multiset().add(
                subtree_bodies(b.children[q]).to_multiset(),
            ),
        decreases n,
    {
        broadcast use vstd::multiset::group_multiset_axioms;

        if n > 0 {
            Self::lemma_prefix_change(a, b, q, n - 1);
            let pa = child_bodies_prefix(a, n - 1);
            let pb = child_bodies_prefix(b, n - 1);
            let sa = subtree_bodies(a.children[n - 1]);
            let sb = subtree_bodies(b.children[n - 1]);
            if n > q {
                assert(child_bodies_prefix(a, n) == pa + sa);
                assert(child_bodies_prefix(b, n) == pb + sb);
                lemma_multiset_commutative(pa, sa);
                lemma_multiset_commutative(pb, sb);
                if n - 1 == q {
                    assert(pb == pa);
                } else {
                    assert(a.children[n - 1] == b.children[n - 1]);
                    assert(sa == sb);
                    assert(pb.to_multiset().add(subtree_bodies(a.children[q]).to_multiset())
                        =~= pa.to_multiset().add(subtree_bodies(b.children[q]).to_multiset()));
                }
                assert_multisets_equal!(
                    child_bodies_prefix(b, n).to_multiset().add(
                        subtree_bodies(a.children[q]).to_multiset()),
                    child_bodies_prefix(a, n).to_multiset().add(
                        subtree_bodies(b.children[q]).to_multiset()),
                    v => {
                        assert(child_bodies_prefix(b, n).to_multiset().count(v)
                            == pb.to_multiset().count(v) + sb.to_multiset().count(v));
                        assert(child_bodies_prefix(a, n).to_multiset().count(v)
                            == pa.to_multiset().count(v) + sa.to_multiset().count(v));
                        if n - 1 > q {
                            assert(pb.to_multiset().add(
                                subtree_bodies(a.children[q]).to_multiset(),
                            ).count(v) == pa.to_multiset().add(
                                subtree_bodies(b.children[q]).to_multiset(),
                            ).count(v));
                        }
                    }
                );
            }
        }
    }

    /// The prefix body sequence of a node whose children are all empty
    /// leaves is empty.
    proof fn lemma_prefix_of_empty_children(self, n: int)
        requires
            self.children.len() == DIM_POW,
            forall|i: int|
                0 <= i < DIM_POW ==> (#[trigger] self.children[i]).bodies.len() == 0
                    && self.children[i].children.len() == 0,
            n <= DIM_POW,
        ensures
            child_bodies_prefix(self, n) =~= Seq::<Body>::empty(),
        decreases n,
    {
        if 0 < n <= DIM_POW {
            self.lemma_prefix_of_empty_children(n - 1);
            assert(subtree_bodies(self.children[n - 1]) =~= Seq::<Body>::empty());
            assert(child_bodies_prefix(self, n) =~= child_bodies_prefix(self, n - 1)
                + subtree_bodies(self.children[n - 1]));
        }
    }

    /// Creates a new empty cell centered at `center` with full width `size`.
    pub fn new(center: VecN, size: i64) -> (t: Self)
        requires
            0 < size,
            center.coords[0] - size >= -(2 * COORD_LIMIT),
            center.coords[0] + size <= 2 * COORD_LIMIT,
            center.coords[1] - size >= -(2 * COORD_LIMIT),
            center.coords[1] + size <= 2 * COORD_LIMIT,
        ensures
            t.wf(),
            t.center == center,
            t.size == size,
            t.mass == 0,
            t.children.len() == 0,
            subtree_bodies(t) =~= Seq::<Body>::empty(),
    {
        QuadTreeNode {
            center,
            size,
            bodies: Vec::new(),
            multipole_expansion: VecN::new([0, 0]),
            mass: 0,
            children: Vec::new(),
        }
    }

    /// Empties the tree: the bodies of every cell are dropped, along with
    /// the subdivision, ready for the next bulk insertion.
    pub fn clear(&mut self)
        requires
            old(self).wf(),
        ensures
            final(self).wf(),
            final(self).center == old(self).center,
            final(self).size == old(self).size,
            final(self).children.len() == 0,
            subtree_bodies(*final(self)) =~= Seq::<Body>::empty(),
    {
        self.bodies = Vec::new();
        self.children = Vec::new();
    }

    /// The octant index of a point relative to this cell's center.
    pub fn get_quadrant(&self, pos: &VecN) -> (idx: usize)
        ensures
            idx == spec_quadrant_of(self.center, *pos),
            idx < DIM_POW,
    {
        let mut idx: usize = 0;
        if pos.coords[0] >= self.center.coords[0] {
            idx = idx + 1;
        }
        if pos.coords[1] >= self.center.coords[1] {
            idx = idx + 2;
        }
        idx
    }

    /// Subdivides a leaf cell into its `DIM_POW` half-width children and
    /// redistributes the cell's bodies into them by octant. The bodies held
    /// beneath the node are preserved exactly (as a multiset).
    pub fn subdivide(&mut self)
        requires
            old(self).wf(),
            old(self).children.len() == 0,
            old(self).size >= 2 * MIN_CELL_SIZE,
        ensures
            final(self).wf(),
            final(self).center == old(self).center,
            final(self).size == old(self).size,
            final(self).children.len() == DIM_POW,
            subtree_bodies(*final(self)).to_multiset() =~= subtree_bodies(
                *old(self),
            ).to_multiset(),
            forall|i: int|
                0 <= i < DIM_POW ==> ({
                    let half = crate::arith::tdiv(old(self).size as int, 2);
                    let quarter = crate::arith::tdiv(half, 2);
                    &&& (#[trigger] final(self).children[i]).children.len() == 0
                    &&& final(self).children[i].size == half
                    &&& final(self).children[i].center.coords[0] == old(self).center.coords[0] + (
                    if i % 2 == 1 {
                        quarter
                    } else {
                        -quarter
                    })
                    &&& final(self).children[i].center.coords[1] == old(self).center.coords[1] + (
                    if i >= 2 {
                        quarter
                    } else {
                        -quarter
                    })
                }),
    {
        broadcast use vstd::seq_lib::group_to_multiset_ensures;
        broadcast use vstd::multiset::group_multiset_axioms;

        let half = self.size / 2;
        let quarter = half / 2;
        let cx = self.center.coords[0];
        let cy = self.center.coords[1];
        let mut children: Vec<QuadTreeNode> = Vec::new();
        children.push(QuadTreeNode::new(VecN::new([cx - quarter, cy - quarter]), half));
        children.push(QuadTreeNode::new(VecN::new([cx + quarter, cy - quarter]), half));
        children.push(QuadTreeNode::new(VecN::new([cx - quarter, cy + quarter]), half));
        children.push(QuadTreeNode::new(VecN::new([cx + quarter, cy + quarter]), half));
        let mut bodies: Vec<Body> = Vec::new();
        core::mem::swap(&mut bodies, &mut self.bodies);
        self.children = children;
        proof {
            assert(subtree_bodies(*old(self)) =~= old(self).bodies@);
            assert(self.children@[0].wf());
            assert(self.children@[1].wf());
            assert(self.children@[2].wf());
            assert(self.children@[3].wf());
            assert(self.wf());
            self.lemma_prefix_of_empty_children(DIM_POW as int);
            assert(subtree_bodies(*self) =~= Seq::<Body>::empty());
        }
        // move every held body into the child of its octant
        while bodies.len() > 0
            invariant
                self.wf(),
                self.children.len() == DIM_POW,
                self.bodies.len() == 0,
                self.center == old(self).center,
                self.size == old(self).size,
                forall|j: int| 0 <= j < bodies.len() ==> (#[trigger] bodies@[j]).valid(),
                old(self).bodies@.len() <= NODE_CAPACITY,
                bodies@.len() <= old(self).bodies@.len(),
                forall|i: int|
                    0 <= i < DIM_POW ==> ({
                        let half = crate::arith::tdiv(old(self).size as int, 2);
                        let quarter = crate::arith::tdiv(half, 2);
                        &&& (#[trigger] self.children[i]).children.len() == 0
                        &&& self.children[i].size == half
                        &&& self.children[i].center.coords[0] == old(self).center.coords[0] + (
                        if i % 2 == 1 {
                            quarter
                        } else {
                            -quarter
                        })
                        &&& self.children[i].center.coords[1] == old(self).center.coords[1] + (
                        if i >= 2 {
                            quarter
                        } else {
                            -quarter
                        })
                        &&& self.children[i].bodies@.len() + bodies@.len() <= old(
                            self,
                        ).bodies@.len()
                    }),
                subtree_bodies(*self).to_multiset().add(bodies@.to_multiset()) =~= old(
                    self,
                ).bodies@.to_multiset(),
            decreases bodies.len(),
        {
            let ghost prev = bodies@;
            let b = bodies.pop().unwrap();
            let q = self.get_quadrant(&b.pos);
            let ghost pre = *self;
            let ghost pre_child = self.children@[q as int];
            let mut ch = self.children.remove(q);
            ch.bodies.push(b);
            self.children.insert(q, ch);
            proof {
                broadcast use vstd::seq_lib::group_to_multiset_ensures;
                broadcast use vstd::multiset::group_multiset_axioms;

                let post = *self;
                assert(post.children@ =~= pre.children@.update(q as int, ch));
                assert(post.children[q as int].bodies@ == pre_child.bodies@.push(b));
                assert(b == prev[prev.len() - 1]);
                assert(b.valid());
                assert(forall|j: int| 0 <= j < bodies@.len() ==> bodies@[j] == prev[j]);
                assert(pre.children[q as int].wf());
                assert(pre_child.wf());
                assert forall|j: int|
                    0 <= j < ch.bodies@.len() implies (#[trigger] ch.bodies@[j]).valid() by {
                    if j < pre_child.bodies@.len() {
                        assert(ch.bodies@[j] == pre_child.bodies@[j]);
                        assert(pre_child.bodies@[j].valid());
                    } else {
                        assert(ch.bodies@[j] == b);
                    }
                }
                assert(ch.wf());
                assert(forall|i: int|
                    0 <= i < DIM_POW ==> (#[trigger] post.children[i]).wf());
                assert(post.wf());
                assert(child_bodies_prefix(post.children[q as int], DIM_POW as int) =~= Seq::<
                    Body,
                >::empty());
                assert(child_bodies_prefix(pre_child, DIM_POW as int) =~= Seq::<Body>::empty());
                assert(subtree_bodies(post.children[q as int]) =~= pre_child.bodies@.push(b));
                assert(subtree_bodies(pre_child) =~= pre_child.bodies@);
                Self::lemma_prefix_change(pre, post, q as int, DIM_POW as int);
                lemma_multiset_commutative(pre.bodies@, child_bodies_prefix(pre, DIM_POW as int));
                lemma_multiset_commutative(post.bodies@, child_bodies_prefix(post, DIM_POW as int));
                assert(prev =~= bodies@.push(b));
                let mpre = subtree_bodies(pre).to_multiset();
                let mpost = subtree_bodies(post).to_multiset();
                let ppre = child_bodies_prefix(pre, DIM_POW as int).to_multiset();
                let ppost = child_bodies_prefix(post, DIM_POW as int).to_multiset();
                let spre = subtree_bodies(pre_child).to_multiset();
                let spost = subtree_bodies(post.children[q as int]).to_multiset();
                assert(spost =~= pre_child.bodies@.push(b).to_multiset());
                assert(pre_child.bodies@.push(b).to_multiset() =~= pre_child.bodies@.to_multiset().insert(b));
                assert(prev.to_multiset() =~= bodies@.push(b).to_multiset());
                assert(bodies@.push(b).to_multiset() =~= bodies@.to_multiset().insert(b));
                assert_multisets_equal!(
                    subtree_bodies(post).to_multiset().add(bodies@.to_multiset()),
                    old(self).bodies@.to_multiset(),
                    v => {
                        assert(mpost.count(v) == post.bodies@.to_multiset().count(v)
                            + ppost.count(v));
                        assert(mpre.count(v) == pre.bodies@.to_multiset().count(v)
                            + ppre.count(v));
                        assert(ppost.add(spre).count(v) == ppre.add(spost).count(v));
                        assert(mpre.add(prev.to_multiset()).count(v) == old(
                            self,
                        ).bodies@.to_multiset().count(v));
                        assert(spost.count(v) == spre.count(v) + (if v == b {
                            1int
                        } else {
                            0int
                        }));
                        assert(prev.to_multiset().count(v) == bodies@.to_multiset().count(v) + (
                        if v == b {
                            1int
                        } else {
                            0int
                        }));
                    }
                );
            }
        }
        proof {
            assert(bodies@ =~= Seq::<Body>::empty());
            assert_multisets_equal!(
                subtree_bodies(*self).to_multiset(),
                subtree_bodies(*old(self)).to_multiset(),
                v => {
                    assert(subtree_bodies(*self).to_multiset().add(bodies@.to_multiset()).count(v)
                        == old(self).bodies@.to_multiset().count(v));
                    assert(bodies@.to_multiset().count(v) == 0);
                }
            );
        }
    }

    /// Inserts a body: descends to the leaf cell of the body's octants,
    /// subdividing any full leaf whose cell is still above the minimum size.
    /// A body of non-positive mass makes no physical contribution and leaves
    /// the tree exactly unchanged; otherwise the bodies held beneath the
    /// node afterwards are exactly the old ones plus the inserted body.
    pub fn insert(&mut self, body: Body)
        requires
            old(self).wf(),
            body.valid(),
        ensures
            final(self).wf(),
            final(self).center == old(self).center,
            final(self).size == old(self).size,
            body.mass <= 0 ==> *final(self) == *old(self),
            body.mass > 0 ==> subtree_bodies(*final(self)).to_multiset() =~= subtree_bodies(
                *old(self),
            ).to_multiset().insert(body),
        decreases old(self).size,
    {
        broadcast use vstd::seq_lib::group_to_multiset_ensures;

        if body.mass <= 0 {
            return;
        }
        if self.children.len() == 0 {
            if self.bodies.len() < NODE_CAPACITY || self.size < 2 * MIN_CELL_SIZE {
                self.bodies.push(body);
                proof {
                    assert(subtree_bodies(*old(self)) =~= old(self).bodies@);
                    assert(subtree_bodies(*self) =~= old(self).bodies@.push(body));
                }
                return;
            }
            self.subdivide();
        }
        let q = self.get_quadrant(&body.pos);
        let ghost mid = *self;
        let ghost pre_child = self.children@[q as int];
        let mut ch = self.children.remove(q);
        ch.insert(body);
        self.children.insert(q, ch);
        proof {
            let post = *self;
            broadcast use vstd::multiset::group_multiset_axioms;

            assert(post.children@ =~= mid.children@.update(q as int, ch));
            Self::lemma_prefix_change(mid, post, q as int, DIM_POW as int);
            lemma_multiset_commutative(mid.bodies@, child_bodies_prefix(mid, DIM_POW as int));
            lemma_multiset_commutative(post.bodies@, child_bodies_prefix(post, DIM_POW as int));
            let ppre = child_bodies_prefix(mid, DIM_POW as int).to_multiset();
            let ppost = child_bodies_prefix(post, DIM_POW as int).to_multiset();
            let spre = subtree_bodies(pre_child).to_multiset();
            let spost = subtree_bodies(post.children[q as int]).to_multiset();
            assert(spost =~= spre.insert(body));
            assert_multisets_equal!(
                subtree_bodies(post).to_multiset(),
                subtree_bodies(mid).to_multiset().insert(body),
                v => {
                    assert(subtree_bodies(post).to_multiset().count(v)
                        == post.bodies@.to_multiset().count(v) + ppost.count(v));
                    assert(subtree_bodies(mid).to_multiset().count(v)
                        == mid.bodies@.to_multiset().count(v) + ppre.count(v));
                    assert(ppost.add(spre).count(v) == ppre.add(spost).count(v));
                    assert(spost.count(v) == spre.count(v) + (if v == body {
                        1int
                    } else {
                        0int
                    }));
                }
            );
        }
    }
}

impl QuadTreeNode {
    /// The mass beneath one child never exceeds the mass of the whole
    /// prefix, and prefix masses decompose child by child.
    proof fn lemma_prefix_mass_decompose(self, n: int)
        requires
            self.wf(),
            self.children.len() == DIM_POW,
            0 < n <= DIM_POW,
        ensures
            spec_bodies_mass(child_bodies_prefix(self, n)) == spec_bodies_mass(
                child_bodies_prefix(self, n - 1),
            ) + spec_bodies_mass(subtree_bodies(self.children[n - 1])),
    {
        assert(additive_foldr(mass_fold()));
        assert(child_bodies_prefix(self, n) == child_bodies_prefix(self, n - 1) + subtree_bodies(
            self.children[n - 1],
        ));
        lemma_additive_fold_concat(
            child_bodies_prefix(self, n - 1),
            subtree_bodies(self.children[n - 1]),
            mass_fold(),
        );
    }

    /// Prefix body masses are non-negative under well-formedness.
    proof fn lemma_prefix_mass_nonneg(self, n: int)
        requires
            self.wf(),
            n <= DIM_POW,
        ensures
            0 <= spec_bodies_mass(child_bodies_prefix(self, n)),
    {
        self.lemma_prefix_bodies_valid(n);
        lemma_bodies_mass_nonneg(child_bodies_prefix(self, n));
    }

    /// Prefixes over children with unchanged body contents are unchanged.
    proof fn lemma_prefix_same_bodies(a: Self, b: Self, n: int)
        requires
            a.children.len() == DIM_POW,
            b.children.len() == DIM_POW,
            forall|i: int|
                0 <= i < DIM_POW ==> subtree_bodies(#[trigger] a.children[i]) == subtree_bodies(
                    b.children[i],
                ),
            n <= DIM_POW,
        ensures
            child_bodies_prefix(a, n) == child_bodies_prefix(b, n),
        decreases n,
    {
        if n > 0 {
            Self::lemma_prefix_same_bodies(a, b, n - 1);
        }
    }

    /// Nodes whose children agree pairwise agree on every children prefix.
    proof fn lemma_same_children_from_pointwise(a: Self, b: Self, n: int)
        requires
            a.children.len() == b.children.len(),
            forall|i: int|
                0 <= i < a.children.len() ==> spec_same_node(
                    #[trigger] a.children[i],
                    b.children[i],
                ),
            n <= DIM_POW,
        ensures
            spec_same_children_prefix(a, b, n),
        decreases n,
    {
        if n > 0 {
            Self::lemma_same_children_from_pointwise(a, b, n - 1);
        }
    }

    /// One bottom-up aggregation step: computes this node's aggregate mass
    /// and exact multipole centroid, returning the exact mass-weighted
    /// coordinate sums of the subtree.
    fn aggregate(&mut self) -> (w: (i64, i64))
        requires
            old(self).wf(),
            spec_bodies_mass(subtree_bodies(*old(self))) <= MASS_LIMIT,
        ensures
            final(self).wf(),
            final(self).aggregated(),
            final(self).center == old(self).center,
            final(self).size == old(self).size,
            final(self).bodies == old(self).bodies,
            final(self).children.len() == old(self).children.len(),
            subtree_bodies(*final(self)) == subtree_bodies(*old(self)),
            final(self).mass == spec_bodies_mass(subtree_bodies(*old(self))),
            w.0 == spec_bodies_wsum(subtree_bodies(*old(self)), 0),
            w.1 == spec_bodies_wsum(subtree_bodies(*old(self)), 1),
            old(self).aggregated() ==> spec_same_node(*final(self), *old(self)),
        decreases old(self).size,
    {
        proof {
            assert(additive_foldr(mass_fold()));
            assert(additive_foldr(wsum_fold(0)));
            assert(additive_foldr(wsum_fold(1)));
            old(self).lemma_subtree_bodies_valid();
            old(self).lemma_prefix_bodies_valid(DIM_POW as int);
            lemma_additive_fold_concat(
                old(self).bodies@,
                child_bodies_prefix(*old(self), DIM_POW as int),
                mass_fold(),
            );
            lemma_additive_fold_concat(
                old(self).bodies@,
                child_bodies_prefix(*old(self), DIM_POW as int),
                wsum_fold(0),
            );
            lemma_additive_fold_concat(
                old(self).bodies@,
                child_bodies_prefix(*old(self), DIM_POW as int),
                wsum_fold(1),
            );
            lemma_bodies_mass_nonneg(old(self).bodies@);
            old(self).lemma_prefix_mass_nonneg(DIM_POW as int);
        }
        let ghost whole = subtree_bodies(*old(self));
        let mut total: i64 = 0;
        let mut w0: i64 = 0;
        let mut w1: i64 = 0;
        let n = self.bodies.len();
        let mut k: usize = 0;
        // own bodies first
        while k < n
            invariant
                self == old(self),
                n == self.bodies.len(),
                k <= n,
                self.wf(),
                spec_bodies_mass(subtree_bodies(*old(self))) <= MASS_LIMIT,
                spec_bodies_mass(self.bodies@) + spec_bodies_mass(
                    child_bodies_prefix(*old(self), DIM_POW as int),
                ) == spec_bodies_mass(subtree_bodies(*old(self))),
                0 <= spec_bodies_mass(child_bodies_prefix(*old(self), DIM_POW as int)),
                total == spec_bodies_mass(self.bodies@.subrange(0, k as int)),
                w0 == spec_bodies_wsum(self.bodies@.subrange(0, k as int), 0),
                w1 == spec_bodies_wsum(self.bodies@.subrange(0, k as int), 1),
                0 <= total <= MASS_LIMIT,
                -(COORD_LIMIT * total) <= w0 <= COORD_LIMIT * total,
                -(COORD_LIMIT * total) <= w1 <= COORD_LIMIT * total,
            decreases n - k,
        {
            let b = self.bodies[k];
            proof {
                assert(additive_foldr(mass_fold()));
                assert(additive_foldr(wsum_fold(0)));
                assert(additive_foldr(wsum_fold(1)));
                lemma_additive_fold_snoc(self.bodies@, mass_fold(), k as int);
                lemma_additive_fold_snoc(self.bodies@, wsum_fold(0), k as int);
                lemma_additive_fold_snoc(self.bodies@, wsum_fold(1), k as int);
                assert(b.valid());
                crate::arith::lemma_mul_abs_le(
                    b.pos.coords[0] as int,
                    COORD_LIMIT as int,
                    b.mass as int,
                    b.mass as int,
                );
                crate::arith::lemma_mul_abs_le(
                    b.pos.coords[1] as int,
                    COORD_LIMIT as int,
                    b.mass as int,
                    b.mass as int,
                );
                assert(b.mass * b.pos.coords[0] == b.pos.coords[0] * b.mass) by (nonlinear_arith);
                assert(b.mass * b.pos.coords[1] == b.pos.coords[1] * b.mass) by (nonlinear_arith);
                // the rest of the bodies and the children keep the prefix within the limit
                let rest = self.bodies@.subrange(k as int + 1, n as int);
                assert(self.bodies@ =~= self.bodies@.subrange(0, k as int + 1) + rest);
                lemma_additive_fold_concat(
                    self.bodies@.subrange(0, k as int + 1),
                    rest,
                    mass_fold(),
                );
                assert(forall|j: int| 0 <= j < rest.len() ==> (#[trigger] rest[j]).valid());
                lemma_bodies_mass_nonneg(rest);
            }
            total = total + b.mass;
            w0 = w0 + b.mass * b.pos.coords[0];
            w1 = w1 + b.mass * b.pos.coords[1];
            k = k + 1;
        }
        proof {
            assert(self.bodies@.subrange(0, n as int) =~= self.bodies@);
        }
        // then the children, bottom-up
        if self.children.len() > 0 {
            let mut i: usize = 0;
            while i < DIM_POW
                invariant
                    i <= DIM_POW,
                    self.wf(),
                    self.children.len() == DIM_POW,
                    self.bodies == old(self).bodies,
                    self.center == old(self).center,
                    self.size == old(self).size,
                    spec_bodies_mass(subtree_bodies(*old(self))) <= MASS_LIMIT,
                    old(self).wf(),
                    old(self).children.len() == DIM_POW,
                    spec_bodies_mass(old(self).bodies@) + spec_bodies_mass(
                        child_bodies_prefix(*old(self), DIM_POW as int),
                    ) == spec_bodies_mass(subtree_bodies(*old(self))),
                    0 <= spec_bodies_mass(old(self).bodies@),
                    forall|j: int|
                        0 <= j < DIM_POW ==> subtree_bodies(#[trigger] self.children[j])
                            == subtree_bodies(old(self).children[j]),
                    forall|j: int|
                        0 <= j < i ==> (#[trigger] self.children[j]).aggregated(),
                    old(self).aggregated() ==> forall|j: int|
                        0 <= j < i ==> spec_same_node(
                            #[trigger] self.children[j],
                            old(self).children[j],
                        ),
                    forall|j: int|
                        i <= j < DIM_POW ==> #[trigger] self.children[j] == old(self).children[j],
                    total == spec_bodies_mass(old(self).bodies@) + spec_bodies_mass(
                        child_bodies_prefix(*old(self), i as int),
                    ),
                    w0 == spec_bodies_wsum(old(self).bodies@, 0) + spec_bodies_wsum(
                        child_bodies_prefix(*old(self), i as int),
                        0,
                    ),
                    w1 == spec_bodies_wsum(old(self).bodies@, 1) + spec_bodies_wsum(
                        child_bodies_prefix(*old(self), i as int),
                        1,
                    ),
                    0 <= total <= MASS_LIMIT,
                    -(COORD_LIMIT * total) <= w0 <= COORD_LIMIT * total,
                    -(COORD_LIMIT * total) <= w1 <= COORD_LIMIT * total,
                decreases DIM_POW - i,
            {
                proof {
                    assert(additive_foldr(mass_fold()));
                    assert(additive_foldr(wsum_fold(0)));
                    assert(additive_foldr(wsum_fold(1)));
                    old(self).lemma_prefix_mass_decompose(i as int + 1);
                    assert(child_bodies_prefix(*old(self), i as int + 1) == child_bodies_prefix(
                        *old(self),
                        i as int,
                    ) + subtree_bodies(old(self).children[i as int]));
                    lemma_additive_fold_concat(
                        child_bodies_prefix(*old(self), i as int),
                        subtree_bodies(old(self).children[i as int]),
                        wsum_fold(0),
                    );
                    lemma_additive_fold_concat(
                        child_bodies_prefix(*old(self), i as int),
                        subtree_bodies(old(self).children[i as int]),
                        wsum_fold(1),
                    );
                    // the child subtree mass is bounded by the whole
                    let rest = child_bodies_prefix(*old(self), DIM_POW as int);
                    old(self).lemma_prefix_split_masses(i as int + 1);
                    old(self).children[i as int].lemma_subtree_bodies_valid();
                    lemma_bodies_mass_nonneg(subtree_bodies(old(self).children[i as int]));
                    lemma_bodies_wsum_bound(subtree_bodies(old(self).children[i as int]), 0);
                    lemma_bodies_wsum_bound(subtree_bodies(old(self).children[i as int]), 1);
                }
                let ghost pre = *self;
                let mut ch = self.children.remove(i);
                let cw = ch.aggregate();
                let cm = ch.mass;
                self.children.insert(i, ch);
                proof {
                    assert(self.children@ =~= pre.children@.update(i as int, ch));
                }
                total = total + cm;
                w0 = w0 + cw.0;
                w1 = w1 + cw.1;
                i = i + 1;
            }
            proof {
                Self::lemma_prefix_same_bodies(*self, *old(self), DIM_POW as int);
            }
        } else {
            proof {
                assert(child_bodies_prefix(*old(self), DIM_POW as int) =~= Seq::<Body>::empty());
            }
        }
        self.mass = total;
        if total > 0 {
            proof {
                crate::arith::lemma_tdiv_abs_bound(w0 as int, total as int, COORD_LIMIT as int);
                crate::arith::lemma_tdiv_abs_bound(w1 as int, total as int, COORD_LIMIT as int);
            }
            let m0 = crate::arith::div_trunc(w0, total);
            let m1 = crate::arith::div_trunc(w1, total);
            self.multipole_expansion = VecN::new([m0, m1]);
        } else {
            self.multipole_expansion = VecN::new([0, 0]);
        }
        proof {
            if old(self).children.len() == DIM_POW {
                Self::lemma_prefix_same_bodies(*self, *old(self), DIM_POW as int);
            } else {
                assert(child_bodies_prefix(*self, DIM_POW as int) =~= Seq::<Body>::empty());
                assert(child_bodies_prefix(*old(self), DIM_POW as int) =~= Seq::<Body>::empty());
            }
            assert(subtree_bodies(*self) == subtree_bodies(*old(self)));
            if old(self).aggregated() {
                // a second aggregation pass recomputes the same values: the
                // node keeps every observable field, recursively
                assert(self.mass == old(self).mass);
                assert(self.multipole_expansion.coords =~= old(self).multipole_expansion.coords);
                if old(self).children.len() == DIM_POW {
                    Self::lemma_same_children_from_pointwise(*self, *old(self), DIM_POW as int);
                }
                assert(spec_same_node(*self, *old(self)));
            }
        }
        (w0, w1)
    }

    /// Splitting the full prefix at `n` splits its mass, each part
    /// non-negative.
    proof fn lemma_prefix_split_masses(self, n: int)
        requires
            self.wf(),
            self.children.len() == DIM_POW,
            0 <= n <= DIM_POW,
        ensures
            spec_bodies_mass(child_bodies_prefix(self, n)) <= spec_bodies_mass(
                child_bodies_prefix(self, DIM_POW as int),
            ),
            0 <= spec_bodies_mass(child_bodies_prefix(self, n)),
        decreases DIM_POW - n,
    {
        self.lemma_prefix_mass_nonneg(n);
        if n < DIM_POW {
            self.lemma_prefix_split_masses(n + 1);
            self.lemma_prefix_mass_decompose(n + 1);
            self.children[n].lemma_subtree_bodies_valid();
            lemma_bodies_mass_nonneg(subtree_bodies(self.children[n]));
        }
    }

    /// Computes each node's first-order multipole expansion — the exact
    /// mass-weighted centroid of every body at or beneath it — and its
    /// aggregate mass, bottom-up.
    pub fn compute_multipole_expansion(&mut self)
        requires
            old(self).wf(),
            spec_bodies_mass(subtree_bodies(*old(self))) <= MASS_LIMIT,
        ensures
            final(self).wf(),
            final(self).aggregated(),
            final(self).center == old(self).center,
            final(self).size == old(self).size,
            final(self).bodies == old(self).bodies,
            final(self).children.len() == old(self).children.len(),
            subtree_bodies(*final(self)) == subtree_bodies(*old(self)),
            final(self).mass == spec_bodies_mass(subtree_bodies(*old(self))),
            old(self).aggregated() ==> spec_same_node(*final(self), *old(self)),
    {
        let _ = self.aggregate();
    }
}

/// Whether a bucket-tree node is far enough from an evaluation point that
/// its whole subtree may be treated as one point mass at its multipole
/// centroid: the Barnes-Hut criterion `size / dist < theta`.
pub open spec fn spec_bucket_admissible(node: QuadTreeNode, qpos: VecN, cfg: SimConfig) -> bool {
    let dist = crate::arith::isqrt(crate::vector::spec_dist2(qpos, node.multipole_expansion));
    node.size * cfg.theta_den < dist * cfg.theta_num
}

/// Component `i` of the net force a bucket subtree exerts on a probe: the
/// exact pairwise sum at a leaf, the single aggregate force at an admissible
/// internal node, and the sum over the children otherwise.
pub open spec fn spec_bucket_force(
    node: QuadTreeNode,
    qpos: VecN,
    qm: int,
    qid: int,
    cfg: SimConfig,
    i: int,
) -> int
    decreases node, (DIM_POW + 1) as int,
{
    if node.children.len() != DIM_POW {
        spec_bodies_force(node.bodies@, qpos, qm, qid, cfg, i)
    } else if spec_bucket_admissible(node, qpos, cfg) {
        spec_force_comp(qm, qpos, node.mass as int, node.multipole_expansion, cfg, i)
    } else {
        spec_bucket_children_prefix(node, qpos, qm, qid, cfg, i, DIM_POW as int)
    }
}

/// The summed force contributions of the children in octants below `n`.
pub open spec fn spec_bucket_children_prefix(
    node: QuadTreeNode,
    qpos: VecN,
    qm: int,
    qid: int,
    cfg: SimConfig,
    i: int,
    n: int,
) -> int
    decreases node, n,
        via bucket_children_prefix_decreases
{
    if n <= 0 || n > DIM_POW || node.children.len() != DIM_POW {
        0
    } else {
        spec_bucket_children_prefix(node, qpos, qm, qid, cfg, i, n - 1) + spec_bucket_force(
            node.children[n - 1],
            qpos,
            qm,
            qid,
            cfg,
            i,
        )
    }
}

#[via_fn]
proof fn bucket_children_prefix_decreases(
    node: QuadTreeNode,
    qpos: VecN,
    qm: int,
    qid: int,
    cfg: SimConfig,
    i: int,
    n: int,
) {
    broadcast use vstd::std_specs::vec::group_vec_axioms;

    if 0 < n <= DIM_POW && node.children.len() == DIM_POW {
        let ch = node.children;
        assert(decreases_to!(node => ch));
        assert(decreases_to!(ch => ch@));
        assert(decreases_to!(ch@ => ch@[n - 1]));
        assert(decreases_to!(node => ch@[n - 1]));
    }
}

impl QuadTreeNode {
    /// Evaluates the net gravitational force this tree exerts on a body, by
    /// the Barnes-Hut rule over the bucket structure: a leaf contributes the
    /// exact pairwise force of its bodies (skipping the probe itself by id),
    /// an admissible internal node acts as its aggregate mass at its
    /// multipole centroid, and any other node contributes the sum of its
    /// children. Each component of the result is bounded by
    /// `g * mass * self.mass`.
    pub fn evaluate_force(&self, body: &Body, cfg: &SimConfig) -> (f: VecN)
        requires
            self.wf(),
            self.aggregated(),
            cfg.valid(),
            body.pos.in_range(),
            0 <= body.mass <= MASS_LIMIT,
        ensures
            f.coords[0] == spec_bucket_force(*self, body.pos, body.mass as int, body.id as int, *cfg, 0),
            f.coords[1] == spec_bucket_force(*self, body.pos, body.mass as int, body.id as int, *cfg, 1),
            -(cfg.g * body.mass * self.mass) <= f.coords[0] <= cfg.g * body.mass * self.mass,
            -(cfg.g * body.mass * self.mass) <= f.coords[1] <= cfg.g * body.mass * self.mass,
        decreases self.size,
    {
        let ghost gm = cfg.g * body.mass;
        let ghost qm = body.mass as int;
        let ghost qid = body.id as int;
        proof {
            lemma_mul_le(cfg.g as int, MASS_LIMIT as int, body.mass as int, MASS_LIMIT as int);
            lemma_mul_le(gm, (MASS_LIMIT * MASS_LIMIT) as int, self.mass as int, MASS_LIMIT as int);
            assert(gm * self.mass == cfg.g * body.mass * self.mass) by (nonlinear_arith)
                requires
                    gm == cfg.g * body.mass,
            {}
        }
        if self.children.len() == 0 {
            // a leaf: the exact pairwise force of the held bodies
            proof {
                assert(child_bodies_prefix(*self, DIM_POW as int) =~= Seq::<Body>::empty());
                assert(subtree_bodies(*self) =~= self.bodies@);
                assert(additive_foldr(mass_fold()));
                lemma_bodies_mass_nonneg(self.bodies@);
            }
            let mut fx: i64 = 0;
            let mut fy: i64 = 0;
            let n = self.bodies.len();
            let mut k: usize = 0;
            while k < n
                invariant
                    k <= n,
                    n == self.bodies.len(),
                    self.wf(),
                    cfg.valid(),
                    body.pos.in_range(),
                    0 <= body.mass <= MASS_LIMIT,
                    gm == cfg.g * body.mass,
                    qm == body.mass as int,
                    qid == body.id as int,
                    0 <= gm <= MASS_LIMIT * MASS_LIMIT,
                    spec_bodies_mass(self.bodies@) <= MASS_LIMIT,
                    fx == spec_bodies_force(self.bodies@.subrange(0, k as int), body.pos, qm, qid, *cfg, 0),
                    fy == spec_bodies_force(self.bodies@.subrange(0, k as int), body.pos, qm, qid, *cfg, 1),
                decreases n - k,
            {
                let ghost pre = self.bodies@.subrange(0, k as int);
                proof {
                    assert(additive_foldr(mass_fold()));
                    assert(additive_foldr(force_fold(body.pos, qm, qid, *cfg, 0)));
                    assert(additive_foldr(force_fold(body.pos, qm, qid, *cfg, 1)));
                    assert(forall|j: int| 0 <= j < pre.len() ==> (#[trigger] pre[j]).valid());
                    lemma_bodies_force_bound(pre, body.pos, qm, qid, *cfg, 0, gm);
                    lemma_bodies_force_bound(pre, body.pos, qm, qid, *cfg, 1, gm);
                    lemma_additive_fold_snoc(self.bodies@, force_fold(body.pos, qm, qid, *cfg, 0), k as int);
                    lemma_additive_fold_snoc(self.bodies@, force_fold(body.pos, qm, qid, *cfg, 1), k as int);
                    lemma_additive_fold_snoc(self.bodies@, mass_fold(), k as int);
                    crate::force::lemma_force_comp_bound(qm, body.pos, self.bodies@[k as int].mass as int, self.bodies@[k as int].pos, *cfg, 0);
                    crate::force::lemma_force_comp_bound(qm, body.pos, self.bodies@[k as int].mass as int, self.bodies@[k as int].pos, *cfg, 1);
                    let rest = self.bodies@.subrange(k as int + 1, n as int);
                    assert(self.bodies@ =~= self.bodies@.subrange(0, k as int + 1) + rest);
                    lemma_additive_fold_concat(self.bodies@.subrange(0, k as int + 1), rest, mass_fold());
                    assert(forall|j: int| 0 <= j < rest.len() ==> (#[trigger] rest[j]).valid());
                    lemma_bodies_mass_nonneg(rest);
                    lemma_bodies_mass_nonneg(self.bodies@.subrange(0, k as int + 1));
                    lemma_bodies_mass_nonneg(pre);
                    let mb = self.bodies@[k as int].mass as int;
                    assert(gm * spec_bodies_mass(pre) + gm * mb == gm * (spec_bodies_mass(pre) + mb)
                        && gm * (spec_bodies_mass(pre) + mb) <= (MASS_LIMIT * MASS_LIMIT) as int
                            * MASS_LIMIT as int
                        && 0 <= gm * (spec_bodies_mass(pre) + mb)
                        && gm * mb <= (MASS_LIMIT * MASS_LIMIT) as int * MASS_LIMIT as int)
                        by (nonlinear_arith)
                        requires
                            0 <= gm <= MASS_LIMIT * MASS_LIMIT,
                            0 <= mb,
                            0 <= spec_bodies_mass(pre),
                            spec_bodies_mass(pre) + mb <= MASS_LIMIT,
                    {}
                }
                let b = self.bodies[k];
                if b.id != body.id {
                    let cf = crate::force::force_between(body.mass, &body.pos, b.mass, &b.pos, cfg);
                    fx = fx + cf.coords[0];
                    fy = fy + cf.coords[1];
                } else {
                    proof {
                        assert(spec_body_contrib(b, body.pos, qm, qid, *cfg, 0) == 0);
                        assert(spec_body_contrib(b, body.pos, qm, qid, *cfg, 1) == 0);
                    }
                }
                k = k + 1;
            }
            proof {
                assert(self.bodies@.subrange(0, n as int) =~= self.bodies@);
                lemma_bodies_force_bound(self.bodies@, body.pos, qm, qid, *cfg, 0, gm);
                lemma_bodies_force_bound(self.bodies@, body.pos, qm, qid, *cfg, 1, gm);
            }
            return VecN::new([fx, fy]);
        }
        let d2 = body.pos.dist2(&self.multipole_expansion);
        proof {
            crate::arith::lemma_square_bound(
                (body.pos.coords[0] - self.multipole_expansion.coords[0]) as int,
                2 * COORD_LIMIT as int,
            );
            crate::arith::lemma_square_bound(
                (body.pos.coords[1] - self.multipole_expansion.coords[1]) as int,
                2 * COORD_LIMIT as int,
            );
        }
        let dist = crate::arith::sqrt_i64(d2);
        proof {
            lemma_mul_le(self.size as int, 2 * COORD_LIMIT as int, cfg.theta_den as int, MASS_LIMIT as int);
            lemma_mul_le(dist as int, 0xB504_F334, cfg.theta_num as int, MASS_LIMIT as int);
        }
        if self.size * cfg.theta_den < dist * cfg.theta_num {
            return crate::force::force_between(
                body.mass,
                &body.pos,
                self.mass,
                &self.multipole_expansion,
                cfg,
            );
        }
        // inadmissible internal node: sum the children's contributions
        proof {
            assert(self.bodies@ =~= Seq::<Body>::empty());
            assert(subtree_bodies(*self) =~= child_bodies_prefix(*self, DIM_POW as int));
            self.lemma_prefix_mass_nonneg(DIM_POW as int);
        }
        let mut fx: i64 = 0;
        let mut fy: i64 = 0;
        let mut i: usize = 0;
        while i < DIM_POW
            invariant
                i <= DIM_POW,
                self.wf(),
                self.aggregated(),
                self.children.len() == DIM_POW,
                cfg.valid(),
                body.pos.in_range(),
                0 <= body.mass <= MASS_LIMIT,
                gm == cfg.g * body.mass,
                qm == body.mass as int,
                qid == body.id as int,
                0 <= gm <= MASS_LIMIT * MASS_LIMIT,
                spec_bodies_mass(subtree_bodies(*self)) == self.mass,
                subtree_bodies(*self) == child_bodies_prefix(*self, DIM_POW as int),
                self.mass <= MASS_LIMIT,
                fx == spec_bucket_children_prefix(*self, body.pos, qm, qid, *cfg, 0, i as int),
                fy == spec_bucket_children_prefix(*self, body.pos, qm, qid, *cfg, 1, i as int),
                -(gm * spec_bodies_mass(child_bodies_prefix(*self, i as int))) <= fx <= gm
                    * spec_bodies_mass(child_bodies_prefix(*self, i as int)),
                -(gm * spec_bodies_mass(child_bodies_prefix(*self, i as int))) <= fy <= gm
                    * spec_bodies_mass(child_bodies_prefix(*self, i as int)),
            decreases DIM_POW - i,
        {
            let ghost pm = spec_bodies_mass(child_bodies_prefix(*self, i as int));
            let cf = self.children[i].evaluate_force(body, cfg);
            proof {
                assert(self.children[i as int].aggregated());
                let cm = self.children[i as int].mass as int;
                assert(cm == spec_bodies_mass(subtree_bodies(self.children[i as int])));
                self.lemma_prefix_mass_decompose(i as int + 1);
                self.lemma_prefix_split_masses(i as int + 1);
                self.lemma_prefix_mass_nonneg(i as int);
                assert(gm * cm == cfg.g * body.mass * self.children[i as int].mass)
                    by (nonlinear_arith)
                    requires
                        gm == cfg.g * body.mass,
                        cm == self.children[i as int].mass,
                {}
                assert(gm * pm + gm * cm == gm * (pm + cm) && gm * (pm + cm) <= gm * self.mass
                    && gm * self.mass <= (MASS_LIMIT * MASS_LIMIT) as int * MASS_LIMIT as int)
                    by (nonlinear_arith)
                    requires
                        0 <= gm <= MASS_LIMIT * MASS_LIMIT,
                        0 <= pm,
                        0 <= cm,
                        pm + cm <= self.mass,
                        self.mass <= MASS_LIMIT,
                {}
            }
            fx = fx + cf.coords[0];
            fy = fy + cf.coords[1];
            i = i + 1;
        }
        proof {
            assert(gm * spec_bodies_mass(child_bodies_prefix(*self, DIM_POW as int)) == gm
                * self.mass);
        }
        VecN::new([fx, fy])
    }
}

/// Accuracy at the exact end of the tradeoff: with `theta` zero no node is
/// ever admissible, and the tree-based force evaluation equals the direct
/// pairwise evaluation over every body held in the tree, exactly.
pub proof fn lemma_theta_zero_exact(
    node: QuadTreeNode,
    qpos: VecN,
    qm: int,
    qid: int,
    cfg: SimConfig,
    i: int,
)
    requires
        node.wf(),
        cfg.valid(),
        cfg.theta_num == 0,
    ensures
        spec_bucket_force(node, qpos, qm, qid, cfg, i) == spec_bodies_force(
            subtree_bodies(node),
            qpos,
            qm,
            qid,
            cfg,
            i,
        ),
    decreases node, (DIM_POW + 1) as int,
{
    let f = force_fold(qpos, qm, qid, cfg, i);
    assert(additive_foldr(f));
    if node.children.len() != DIM_POW {
        assert(child_bodies_prefix(node, DIM_POW as int) =~= Seq::<Body>::empty());
        lemma_additive_fold_concat(node.bodies@, child_bodies_prefix(node, DIM_POW as int), f);
        assert(subtree_bodies(node) == node.bodies@ + child_bodies_prefix(node, DIM_POW as int));
    } else {
        let dist = crate::arith::isqrt(crate::vector::spec_dist2(qpos, node.multipole_expansion));
        assert(!spec_bucket_admissible(node, qpos, cfg)) by {
            assert(node.size * cfg.theta_den >= 1) by (nonlinear_arith)
                requires
                    node.size >= 1,
                    cfg.theta_den >= 1,
            {}
            assert(dist * cfg.theta_num == 0) by (nonlinear_arith)
                requires
                    cfg.theta_num == 0,
            {}
        }
        lemma_theta_zero_prefix(node, qpos, qm, qid, cfg, i, DIM_POW as int);
        assert(node.bodies@ =~= Seq::<Body>::empty());
        lemma_additive_fold_concat(node.bodies@, child_bodies_prefix(node, DIM_POW as int), f);
    }
}

/// The prefix sums of the children match the direct evaluation of the
/// prefix's bodies when `theta` is zero.
proof fn lemma_theta_zero_prefix(
    node: QuadTreeNode,
    qpos: VecN,
    qm: int,
    qid: int,
    cfg: SimConfig,
    i: int,
    n: int,
)
    requires
        node.wf(),
        node.children.len() == DIM_POW,
        cfg.valid(),
        cfg.theta_num == 0,
        n <= DIM_POW,
    ensures
        spec_bucket_children_prefix(node, qpos, qm, qid, cfg, i, n) == spec_bodies_force(
            child_bodies_prefix(node, n),
            qpos,
            qm,
            qid,
            cfg,
            i,
        ),
    decreases node, n,
{
    let f = force_fold(qpos, qm, qid, cfg, i);
    assert(additive_foldr(f));
    if n <= 0 {
        assert(child_bodies_prefix(node, n) =~= Seq::<Body>::empty());
    } else {
        lemma_theta_zero_prefix(node, qpos, qm, qid, cfg, i, n - 1);
        lemma_theta_zero_exact(node.children[n - 1], qpos, qm, qid, cfg, i);
        lemma_additive_fold_concat(
            child_bodies_prefix(node, n - 1),
            subtree_bodies(node.children[n - 1]),
            f,
        );
    }
}

/// The direct pairwise evaluation depends only on which bodies are present,
/// not on their order: permuted populations give equal net forces.
pub proof fn lemma_direct_force_permutation(
    s1: Seq<Body>,
    s2: Seq<Body>,
    qpos: VecN,
    qm: int,
    qid: int,
    cfg: SimConfig,
    i: int,
)
    requires
        s1.to_multiset() == s2.to_multiset(),
    ensures
        spec_bodies_force(s1, qpos, qm, qid, cfg, i) == spec_bodies_force(s2, qpos, qm, qid, cfg, i),
{
    let f = force_fold(qpos, qm, qid, cfg, i);
    assert(commutative_foldr(f));
    lemma_fold_right_permutation(s1, s2, f, 0);
}

/// The total mass of a population depends only on which bodies are present.
pub proof fn lemma_bodies_mass_permutation(s1: Seq<Body>, s2: Seq<Body>)
    requires
        s1.to_multiset() == s2.to_multiset(),
    ensures
        spec_bodies_mass(s1) == spec_bodies_mass(s2),
{
    assert(commutative_foldr(mass_fold()));
    lemma_fold_right_permutation(s1, s2, mass_fold(), 0);
}

/// The number of tree nodes a force evaluation visits: one for a leaf or an
/// admissible node, and one plus the children's visits otherwise.
pub open spec fn spec_bucket_visits(node: QuadTreeNode, qpos: VecN, cfg: SimConfig) -> int
    decreases node, (DIM_POW + 1) as int,
{
    if node.children.len() != DIM_POW || spec_bucket_admissible(node, qpos, cfg) {
        1
    } else {
        1 + spec_bucket_visits_prefix(node, qpos, cfg, DIM_POW as int)
    }
}

/// The visits spent beneath the children in octants below `n`.
pub open spec fn spec_bucket_visits_prefix(
    node: QuadTreeNode,
    qpos: VecN,
    cfg: SimConfig,
    n: int,
) -> int
    decreases node, n,
        via bucket_visits_prefix_decreases
{
    if n <= 0 || n > DIM_POW || node.children.len() != DIM_POW {
        0
    } else {
        spec_bucket_visits_prefix(node, qpos, cfg, n - 1) + spec_bucket_visits(
            node.children[n - 1],
            qpos,
            cfg,
        )
    }
}

#[via_fn]
proof fn bucket_visits_prefix_decreases(node: QuadTreeNode, qpos: VecN, cfg: SimConfig, n: int) {
    broadcast use vstd::std_specs::vec::group_vec_axioms;

    if 0 < n <= DIM_POW && node.children.len() == DIM_POW {
        let ch = node.children;
        assert(decreases_to!(node => ch));
        assert(decreases_to!(ch => ch@));
        assert(decreases_to!(ch@ => ch@[n - 1]));
        assert(decreases_to!(node => ch@[n - 1]));
    }
}

/// Admissibility is monotone in theta: a node far enough away for a small
/// theta is far enough away for any larger one.
pub proof fn lemma_admissible_mono(
    node: QuadTreeNode,
    qpos: VecN,
    cfg1: SimConfig,
    cfg2: SimConfig,
)
    requires
        cfg1.theta_den >= 1,
        cfg2.theta_den >= 1,
        cfg1.theta_num * cfg2.theta_den <= cfg2.theta_num * cfg1.theta_den,
        spec_bucket_admissible(node, qpos, cfg1),
    ensures
        spec_bucket_admissible(node, qpos, cfg2),
{
    let d2 = crate::vector::spec_dist2(qpos, node.multipole_expansion);
    let dx = qpos.coords[0] - node.multipole_expansion.coords[0];
    let dy = qpos.coords[1] - node.multipole_expansion.coords[1];
    assert(dx * dx >= 0 && dy * dy >= 0) by (nonlinear_arith);
    let dist = crate::arith::isqrt(d2);
    crate::arith::lemma_isqrt_bounds(d2);
    assert(node.size * cfg2.theta_den < dist * cfg2.theta_num) by (nonlinear_arith)
        requires
            cfg1.theta_den >= 1,
            cfg2.theta_den >= 1,
            node.size * cfg1.theta_den < dist * cfg1.theta_num,
            cfg1.theta_num * cfg2.theta_den <= cfg2.theta_num * cfg1.theta_den,
            dist >= 0,
    {}
}

/// Visit counts are at least one node per subtree prefix entry.
proof fn lemma_visits_prefix_nonneg(node: QuadTreeNode, qpos: VecN, cfg: SimConfig, n: int)
    ensures
        spec_bucket_visits_prefix(node, qpos, cfg, n) >= 0,
    decreases node, n,
{
    if 0 < n <= DIM_POW && node.children.len() == DIM_POW {
        lemma_visits_prefix_nonneg(node, qpos, cfg, n - 1);
        lemma_visits_nonneg(node.children[n - 1], qpos, cfg);
    }
}

/// Every evaluation visits at least the node it starts from.
proof fn lemma_visits_nonneg(node: QuadTreeNode, qpos: VecN, cfg: SimConfig)
    ensures
        spec_bucket_visits(node, qpos, cfg) >= 1,
    decreases node, (DIM_POW + 1) as int,
{
    if node.children.len() == DIM_POW && !spec_bucket_admissible(node, qpos, cfg) {
        lemma_visits_prefix_nonneg(node, qpos, cfg, DIM_POW as int);
    }
}

/// The performance half of the accuracy tradeoff: evaluating with a larger
/// theta never visits more tree nodes than evaluating with a smaller one.
pub proof fn lemma_visits_anti_monotone_in_theta(
    node: QuadTreeNode,
    qpos: VecN,
    cfg1: SimConfig,
    cfg2: SimConfig,
)
    requires
        cfg1.theta_den >= 1,
        cfg2.theta_den >= 1,
        cfg1.theta_num * cfg2.theta_den <= cfg2.theta_num * cfg1.theta_den,
    ensures
        1 <= spec_bucket_visits(node, qpos, cfg2) <= spec_bucket_visits(node, qpos, cfg1),
    decreases node, (DIM_POW + 1) as int,
{
    lemma_visits_nonneg(node, qpos, cfg1);
    lemma_visits_nonneg(node, qpos, cfg2);
    if node.children.len() == DIM_POW {
        if spec_bucket_admissible(node, qpos, cfg1) {
            lemma_admissible_mono(node, qpos, cfg1, cfg2);
        } else if spec_bucket_admissible(node, qpos, cfg2) {
            lemma_visits_prefix_nonneg(node, qpos, cfg1, DIM_POW as int);
        } else {
            lemma_visits_prefix_anti_mono(node, qpos, cfg1, cfg2, DIM_POW as int);
        }
    }
}

/// Prefix visit counts are anti-monotone in theta as well.
proof fn lemma_visits_prefix_anti_mono(
    node: QuadTreeNode,
    qpos: VecN,
    cfg1: SimConfig,
    cfg2: SimConfig,
    n: int,
)
    requires
        cfg1.theta_den >= 1,
        cfg2.theta_den >= 1,
        cfg1.theta_num * cfg2.theta_den <= cfg2.theta_num * cfg1.theta_den,
    ensures
        spec_bucket_visits_prefix(node, qpos, cfg2, n) <= spec_bucket_visits_prefix(
            node,
            qpos,
            cfg1,
            n,
        ),
    decreases node, n,
{
    if 0 < n <= DIM_POW && node.children.len() == DIM_POW {
        lemma_visits_prefix_anti_mono(node, qpos, cfg1, cfg2, n - 1);
        lemma_visits_anti_monotone_in_theta(node.children[n - 1], qpos, cfg1, cfg2);
    }
}

/// Two nodes that agree on everything observable: cell geometry, held
/// bodies, aggregates, and, recursively, every child. This is equality up
/// to the heap layout of the vectors.
pub open spec fn spec_same_node(a: QuadTreeNode, b: QuadTreeNode) -> bool
    decreases a, (DIM_POW + 1) as int,
{
    &&& a.center == b.center
    &&& a.size == b.size
    &&& a.bodies@ == b.bodies@
    &&& a.multipole_expansion == b.multipole_expansion
    &&& a.mass == b.mass
    &&& a.children.len() == b.children.len()
    &&& spec_same_children_prefix(a, b, DIM_POW as int)
}

/// The children in octants below `n` agree pairwise.
pub open spec fn spec_same_children_prefix(a: QuadTreeNode, b: QuadTreeNode, n: int) -> bool
    decreases a, n,
        via same_children_prefix_decreases
{
    if n <= 0 || n > DIM_POW || a.children.len() != DIM_POW || b.children.len() != DIM_POW {
        true
    } else {
        spec_same_children_prefix(a, b, n - 1) && spec_same_node(a.children[n - 1], b.children[n - 1])
    }
}

#[via_fn]
proof fn same_children_prefix_decreases(a: QuadTreeNode, b: QuadTreeNode, n: int) {
    broadcast use vstd::std_specs::vec::group_vec_axioms;

    if 0 < n <= DIM_POW && a.children.len() == DIM_POW && b.children.len() == DIM_POW {
        let ch = a.children;
        assert(decreases_to!(a => ch));
        assert(decreases_to!(ch => ch@));
        assert(decreases_to!(ch@ => ch@[n - 1]));
        assert(decreases_to!(a => ch@[n - 1]));
    }
}

/// The bodies of a population that carry positive mass, in their original
/// order. Only these make a physical contribution; tree insertion ignores
/// the rest.
pub open spec fn spec_positives(s: Seq<Body>) -> Seq<Body>
    decreases s.len(),
{
    if s.len() == 0 {
        s
    } else if s.last().mass > 0 {
        spec_positives(s.drop_last()).push(s.last())
    } else {
        spec_positives(s.drop_last())
    }
}

/// Appending a body extends the positive-mass bodies exactly when the body
/// has positive mass.
pub proof fn lemma_positives_push(s: Seq<Body>, b: Body)
    ensures
        b.mass > 0 ==> spec_positives(s.push(b)) == spec_positives(s).push(b),
        b.mass <= 0 ==> spec_positives(s.push(b)) == spec_positives(s),
{
    assert(s.push(b).drop_last() =~= s);
    assert(s.push(b).last() == b);
}

/// A massless body contributes nothing to the softened force.
proof fn lemma_massless_contrib_zero(b: Body, qpos: VecN, qm: int, qid: int, cfg: SimConfig, i: int)
    requires
        b.mass == 0,
        cfg.valid(),
    ensures
        spec_body_contrib(b, qpos, qm, qid, cfg, i) == 0,
{
    if b.id != qid {
        let d2 = crate::vector::spec_dist2(qpos, b.pos);
        let dx = qpos.coords[0] - b.pos.coords[0];
        let dy = qpos.coords[1] - b.pos.coords[1];
        assert(dx * dx >= 0 && dy * dy >= 0) by (nonlinear_arith);
        assert(cfg.g * qm * 0 == 0) by (nonlinear_arith);
        crate::arith::lemma_isqrt_bounds(d2);
        let dist = crate::arith::isqrt(d2);
        if dist != 0 {
            crate::arith::lemma_div_nonneg_le(0, d2 + cfg.softening_sq);
            assert(crate::force::spec_fmag(qm, 0, d2, cfg) == 0);
            assert(crate::force::spec_fmag(qm, 0, d2, cfg) * (b.pos.coords[i] - qpos.coords[i])
                == 0) by (nonlinear_arith)
                requires
                    crate::force::spec_fmag(qm, 0, d2, cfg) == 0,
            {}
            crate::arith::lemma_div_nonneg_le(0, dist);
        }
    }
}

/// Dropping the massless bodies changes neither the total mass nor the
/// direct net force of a population, and keeps every body bounded.
pub proof fn lemma_positives_same_physics(
    s: Seq<Body>,
    qpos: VecN,
    qm: int,
    qid: int,
    cfg: SimConfig,
    i: int,
)
    requires
        forall|j: int| 0 <= j < s.len() ==> (#[trigger] s[j]).valid(),
        cfg.valid(),
    ensures
        spec_bodies_mass(spec_positives(s)) == spec_bodies_mass(s),
        spec_bodies_force(spec_positives(s), qpos, qm, qid, cfg, i) == spec_bodies_force(
            s,
            qpos,
            qm,
            qid,
            cfg,
            i,
        ),
        forall|l: int|
            0 <= l < spec_positives(s).len() ==> (#[trigger] spec_positives(s)[l]).valid(),
    decreases s.len(),
{
    let f = force_fold(qpos, qm, qid, cfg, i);
    assert(additive_foldr(mass_fold()));
    assert(additive_foldr(f));
    if s.len() > 0 {
        let dl = s.drop_last();
        let b = s.last();
        assert(dl =~= s.subrange(0, s.len() - 1));
        assert(forall|j: int| 0 <= j < dl.len() ==> (#[trigger] dl[j]).valid());
        lemma_positives_same_physics(dl, qpos, qm, qid, cfg, i);
        lemma_additive_fold_offset(dl, mass_fold(), mass_fold()(b, 0));
        lemma_additive_fold_offset(dl, f, f(b, 0));
        if b.mass > 0 {
            assert(spec_positives(s) == spec_positives(dl).push(b));
            lemma_additive_fold_offset(spec_positives(dl), mass_fold(), mass_fold()(b, 0));
            lemma_additive_fold_offset(spec_positives(dl), f, f(b, 0));
            assert(spec_positives(dl).push(b).drop_last() =~= spec_positives(dl));
        } else {
            assert(b.mass == 0);
            assert(spec_positives(s) == spec_positives(dl));
            lemma_massless_contrib_zero(b, qpos, qm, qid, cfg, i);
        }
    }
}

} // verus!
