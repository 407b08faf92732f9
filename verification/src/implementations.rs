//! The per-step simulation pipeline: force evaluation, integration and the
//! merge pass, and the drivers that run them for a configured number of
//! steps.
//!
//! The merge pass scans all unordered index pairs in ascending order of
//! first index — the globally sorted order that keeps the pass
//! deterministic — consuming each pair whose bodies are closer than the
//! merge threshold unless either id was already consumed earlier in the
//! pass:
//! a single-pass greedy pairing, not a transitive clustering. Consumed
//! bodies are removed, and each consumed pair is replaced by one body with
//! the damped summed mass and the mass-weighted average position and
//! velocity of the pair, under a fresh negative id strictly below every id
//! of the pre-merge population — so a consumed id is retired and can never
//! reappear in this or any later pass.

use vstd::prelude::*;
use crate::vector::{VecN, spec_dist2, spec_weighted_avg};
use crate::body::Body;
use crate::config::SimConfig;
use crate::arith::{
    tdiv, div_trunc, lemma_tdiv_abs_bound, lemma_mul_abs_le, lemma_div_nonneg_le,
};
use crate::quadtree::{
    QuadTreeNode, subtree_bodies, spec_bodies_mass, spec_bodies_force, mass_fold, force_fold,
    spec_body_contrib, additive_foldr, lemma_bodies_mass_nonneg, lemma_additive_fold_concat,
    lemma_additive_fold_snoc, lemma_additive_fold_offset, lemma_bodies_force_bound,
    lemma_bodies_mass_permutation, lemma_direct_force_permutation, lemma_theta_zero_exact,
    spec_bucket_force, spec_positives, lemma_positives_push, lemma_positives_same_physics,
};
use crate::body::{spec_dv, spec_dx};
use crate::consts::FORCE_LIMIT;
use crate::consts::{COORD_LIMIT, MASS_LIMIT};

verus! {

/// A population the core can simulate: every body bounded, and the total
/// mass within the limit the trees and the force bounds rely on.
pub open spec fn valid_population(s: Seq<Body>) -> bool {
    &&& forall|k: int| 0 <= k < s.len() ==> (#[trigger] s[k]).valid()
    &&& spec_bodies_mass(s) <= MASS_LIMIT
}

/// Whether two bodies have converged closer than the merge threshold:
/// their distance is below it exactly when the squared distance is below
/// its square.
pub open spec fn spec_close(a: Body, b: Body, cfg: SimConfig) -> bool {
    spec_dist2(a.pos, b.pos) < cfg.merge_threshold * cfg.merge_threshold
}

/// Comparing a squared distance against a squared threshold is exactly the
/// strict comparison of the distance itself against the threshold.
pub proof fn lemma_close_is_distance_below(d2: int, t: int)
    requires
        d2 >= 0,
        t >= 0,
    ensures
        (crate::arith::isqrt(d2) < t) == (d2 < t * t),
{
    crate::arith::lemma_isqrt_bounds(d2);
    let r = crate::arith::isqrt(d2);
    if r < t {
        assert((r + 1) * (r + 1) <= t * t) by (nonlinear_arith)
            requires
                0 <= r,
                r + 1 <= t,
        {}
    }
    if t <= r {
        assert(t * t <= r * r) by (nonlinear_arith)
            requires
                0 <= t <= r,
        {}
    }
}

/// The body a consumed pair is replaced by: the damped summed mass, the
/// mass-weighted average position and velocity of the pair, a cleared
/// force accumulator, and a fresh negative id marking a merge product.
pub open spec fn spec_merged(a: Body, b: Body, cfg: SimConfig, new_id: i64) -> Body {
    Body {
        id: new_id,
        mass: tdiv((a.mass + b.mass) * cfg.damping_num, cfg.damping_den as int) as i64,
        rad: a.rad,
        pos: spec_weighted_avg(a.pos, a.mass as int, b.pos, b.mass as int),
        vel: spec_weighted_avg(a.vel, a.mass as int, b.vel, b.mass as int),
        force: VecN { coords: [0, 0] },
    }
}

/// The smallest of zero and the ids of the first `k` bodies.
pub open spec fn spec_min_id_to(s: Seq<Body>, k: int) -> int
    decreases k,
{
    if k <= 0 {
        0
    } else if s[k - 1].id < spec_min_id_to(s, k - 1) {
        s[k - 1].id as int
    } else {
        spec_min_id_to(s, k - 1)
    }
}

/// The first fresh id a merge pass hands out: strictly below zero and below
/// every id present before the pass. Consecutive products count downward
/// from it, so a product id can never equal a pre-merge id; since every pass
/// starts below the then-current minimum, a retired id also never reappears
/// in any later pass.
pub open spec fn spec_fresh_base(s: Seq<Body>) -> i64 {
    let m = spec_min_id_to(s, s.len() as int);
    if m > i64::MIN {
        (m - 1) as i64
    } else {
        i64::MIN
    }
}

/// The minimum over a prefix is at most zero and at most every id in it.
pub proof fn lemma_min_id_le(s: Seq<Body>, k: int)
    requires
        0 <= k <= s.len(),
    ensures
        spec_min_id_to(s, k) <= 0,
        forall|l: int| 0 <= l < k ==> spec_min_id_to(s, k) <= (#[trigger] s[l]).id,
    decreases k,
{
    if k > 0 {
        lemma_min_id_le(s, k - 1);
    }
}

/// The merge scan: walks the unordered index pairs `(i, j)`, `i < j`, in
/// ascending order, accumulating the consumed ids and the merge products.
/// A pair is consumed when its bodies are close and neither id was consumed
/// by an earlier pair.
pub open spec fn spec_merge_scan(
    s: Seq<Body>,
    cfg: SimConfig,
    i: int,
    j: int,
    next: i64,
    consumed: Seq<i64>,
    merged: Seq<Body>,
) -> (Seq<i64>, Seq<Body>)
    decreases s.len() - i, (if j <= s.len() { s.len() - j } else { 0 }),
{
    if i < 0 || j <= i {
        (consumed, merged)
    } else if i >= s.len() {
        (consumed, merged)
    } else if j >= s.len() {
        spec_merge_scan(s, cfg, i + 1, i + 2, next, consumed, merged)
    } else if spec_close(s[i], s[j], cfg) && s[i].mass + s[j].mass >= 1 && next > i64::MIN
        && !consumed.contains(s[i].id) && !consumed.contains(s[j].id) {
        spec_merge_scan(
            s,
            cfg,
            i,
            j + 1,
            (next - 1) as i64,
            consumed.push(s[i].id).push(s[j].id),
            merged.push(spec_merged(s[i], s[j], cfg, next)),
        )
    } else {
        spec_merge_scan(s, cfg, i, j + 1, next, consumed, merged)
    }
}

/// The bodies of the first `k` slots whose ids were not consumed, in their
/// original order.
pub open spec fn spec_survivors_to(s: Seq<Body>, consumed: Seq<i64>, k: int) -> Seq<Body>
    decreases k,
{
    if k <= 0 {
        Seq::empty()
    } else if consumed.contains(s[k - 1].id) {
        spec_survivors_to(s, consumed, k - 1)
    } else {
        spec_survivors_to(s, consumed, k - 1).push(s[k - 1])
    }
}

/// The population after one merge pass: the surviving bodies in their
/// original order, followed by the merge products in scan order.
pub open spec fn spec_merge_result(s: Seq<Body>, cfg: SimConfig) -> Seq<Body> {
    let (consumed, merged) = spec_merge_scan(
        s,
        cfg,
        0,
        1,
        spec_fresh_base(s),
        Seq::empty(),
        Seq::empty(),
    );
    spec_survivors_to(s, consumed, s.len() as int) + merged
}

/// A merge product weighs no more than the pair it replaces: damping never
/// exceeds one.
pub proof fn lemma_damped_mass_le(sum: int, dn: int, dd: int)
    requires
        0 <= sum,
        0 <= dn <= dd,
        1 <= dd,
    ensures
        0 <= tdiv(sum * dn, dd) <= sum,
{
    crate::arith::lemma_mul_le(sum, sum, dn, dd);
    assert(sum * dn <= dd * sum) by (nonlinear_arith)
        requires
            0 <= sum,
            dn <= dd,
    {}
    lemma_div_nonneg_le(sum * dn, dd);
    vstd::arithmetic::div_mod::lemma_div_is_ordered(sum * dn, dd * sum, dd);
    vstd::arithmetic::div_mod::lemma_div_by_multiple(sum, dd);
    assert(dd * sum == sum * dd) by (nonlinear_arith);
}

/// A merge product of two valid bodies is itself a valid body.
pub proof fn lemma_merged_valid(a: Body, b: Body, cfg: SimConfig, new_id: i64)
    requires
        a.valid(),
        b.valid(),
        a.mass + b.mass <= MASS_LIMIT,
        cfg.valid(),
        a.mass + b.mass >= 1,
        new_id > i64::MIN,
    ensures
        spec_merged(a, b, cfg, new_id).valid(),
        spec_merged(a, b, cfg, new_id).mass <= a.mass + b.mass,
{
    lemma_damped_mass_le(a.mass + b.mass, cfg.damping_num as int, cfg.damping_den as int);
    lemma_weighted_avg_in_range(a.pos, a.mass as int, b.pos, b.mass as int);
    lemma_weighted_avg_in_range(a.vel, a.mass as int, b.vel, b.mass as int);
}

/// The mass-weighted average of two in-range vectors is in range.
pub proof fn lemma_weighted_avg_in_range(p1: VecN, m1: int, p2: VecN, m2: int)
    requires
        p1.in_range(),
        p2.in_range(),
        0 <= m1,
        0 <= m2,
        1 <= m1 + m2,
    ensures
        spec_weighted_avg(p1, m1, p2, m2).in_range(),
{
    lemma_mul_abs_le(p1.coords[0] as int, COORD_LIMIT as int, m1, m1);
    lemma_mul_abs_le(p1.coords[1] as int, COORD_LIMIT as int, m1, m1);
    lemma_mul_abs_le(p2.coords[0] as int, COORD_LIMIT as int, m2, m2);
    lemma_mul_abs_le(p2.coords[1] as int, COORD_LIMIT as int, m2, m2);
    lemma_tdiv_abs_bound(m1 * p1.coords[0] + m2 * p2.coords[0], m1 + m2, COORD_LIMIT as int);
    lemma_tdiv_abs_bound(m1 * p1.coords[1] + m2 * p2.coords[1], m1 + m2, COORD_LIMIT as int);
}

/// Membership in a sequence extended by one element.
pub proof fn lemma_contains_push(c: Seq<i64>, v: i64, x: i64)
    ensures
        c.push(v).contains(x) <==> (c.contains(x) || x == v),
{
    if c.contains(x) {
        let l = choose|l: int| 0 <= l < c.len() && c[l] == x;
        assert(c.push(v)[l] == x);
    }
    if x == v {
        assert(c.push(v)[c.len() as int] == x);
    }
    if c.push(v).contains(x) && x != v {
        let l = choose|l: int| 0 <= l < c.push(v).len() && c.push(v)[l] == x;
        if l < c.len() {
            assert(c[l] == x);
        }
    }
}

/// The mass of the survivors of the first `k` slots.
pub open spec fn spec_survivor_mass(s: Seq<Body>, consumed: Seq<i64>, k: int) -> int {
    spec_bodies_mass(spec_survivors_to(s, consumed, k))
}

/// Consuming two more ids removes at least the two bodies' masses from the
/// survivors (more, when other bodies carry the same ids).
proof fn lemma_survivor_mass_consume(s: Seq<Body>, c: Seq<i64>, ia: int, ib: int, k: int)
    requires
        forall|l: int| 0 <= l < s.len() ==> (#[trigger] s[l]).valid(),
        0 <= ia < ib < s.len(),
        !c.contains(s[ia].id),
        !c.contains(s[ib].id),
        0 <= k <= s.len(),
    ensures
        spec_survivor_mass(s, c.push(s[ia].id).push(s[ib].id), k) + (if ia < k {
            s[ia].mass as int
        } else {
            0
        }) + (if ib < k {
            s[ib].mass as int
        } else {
            0
        }) <= spec_survivor_mass(s, c, k),
    decreases k,
{
    assert(additive_foldr(mass_fold()));
    let c1 = c.push(s[ia].id);
    let c2 = c1.push(s[ib].id);
    if k > 0 {
        lemma_survivor_mass_consume(s, c, ia, ib, k - 1);
        let b = s[k - 1];
        lemma_contains_push(c, s[ia].id, b.id);
        lemma_contains_push(c1, s[ib].id, b.id);
        lemma_mass_snoc(spec_survivors_to(s, c, k - 1), b);
        lemma_mass_snoc(spec_survivors_to(s, c2, k - 1), b);
        if k - 1 == ia || k - 1 == ib {
            assert(c2.contains(b.id));
            assert(!c.contains(b.id));
        } else {
            if !c.contains(b.id) && c2.contains(b.id) {
                // the id matches one of the two consumed ids; dropping the
                // body only lowers the surviving mass further
                assert(b.valid());
            }
        }
    }
}

/// Appending one body adds exactly its mass.
proof fn lemma_mass_snoc(s: Seq<Body>, b: Body)
    ensures
        spec_bodies_mass(s.push(b)) == spec_bodies_mass(s) + b.mass,
{
    assert(additive_foldr(mass_fold()));
    assert(s.push(b).drop_last() =~= s);
    crate::quadtree::lemma_additive_fold_offset(s, mass_fold(), mass_fold()(b, 0));
}

/// Survivors of valid bodies have non-negative mass, at most the mass of
/// the first `k` slots.
proof fn lemma_survivor_mass_bounds(s: Seq<Body>, c: Seq<i64>, k: int)
    requires
        forall|l: int| 0 <= l < s.len() ==> (#[trigger] s[l]).valid(),
        0 <= k <= s.len(),
    ensures
        0 <= spec_survivor_mass(s, c, k) <= spec_bodies_mass(s.subrange(0, k)),
        forall|l: int|
            0 <= l < spec_survivors_to(s, c, k).len() ==> (#[trigger] spec_survivors_to(
                s,
                c,
                k,
            )[l]).valid(),
    decreases k,
{
    assert(additive_foldr(mass_fold()));
    if k > 0 {
        lemma_survivor_mass_bounds(s, c, k - 1);
        let b = s[k - 1];
        lemma_mass_snoc(s.subrange(0, k - 1), b);
        assert(s.subrange(0, k - 1).push(b) =~= s.subrange(0, k));
        if !c.contains(b.id) {
            lemma_mass_snoc(spec_survivors_to(s, c, k - 1), b);
        }
    } else {
        assert(s.subrange(0, 0) =~= Seq::<Body>::empty());
    }
}

/// The scan only ever lowers the total of the survivors' and products'
/// masses, and keeps every product a valid body.
proof fn lemma_scan_mass(
    s: Seq<Body>,
    cfg: SimConfig,
    i: int,
    j: int,
    next: i64,
    c: Seq<i64>,
    m: Seq<Body>,
)
    requires
        forall|l: int| 0 <= l < s.len() ==> (#[trigger] s[l]).valid(),
        forall|l: int| 0 <= l < m.len() ==> (#[trigger] m[l]).valid(),
        cfg.valid(),
        spec_bodies_mass(s) <= MASS_LIMIT,
    ensures
        ({
            let (c2, m2) = spec_merge_scan(s, cfg, i, j, next, c, m);
            &&& spec_survivor_mass(s, c2, s.len() as int) + spec_bodies_mass(m2)
                <= spec_survivor_mass(s, c, s.len() as int) + spec_bodies_mass(m)
            &&& forall|l: int| 0 <= l < m2.len() ==> (#[trigger] m2[l]).valid()
        }),
    decreases s.len() - i, (if j <= s.len() { s.len() - j } else { 0 }),
{
    if i < 0 || j <= i || i >= s.len() {
    } else if j >= s.len() {
        lemma_scan_mass(s, cfg, i + 1, i + 2, next, c, m);
    } else if spec_close(s[i], s[j], cfg) && s[i].mass + s[j].mass >= 1 && next > i64::MIN
        && !c.contains(s[i].id) && !c.contains(s[j].id) {
        let c2 = c.push(s[i].id).push(s[j].id);
        let nb = spec_merged(s[i], s[j], cfg, next);
        let m2 = m.push(nb);
        lemma_survivor_mass_bounds(s, c, s.len() as int);
        assert(spec_bodies_mass(s.subrange(0, s.len() as int)) == spec_bodies_mass(s)) by {
            assert(s.subrange(0, s.len() as int) =~= s);
        }
        lemma_bodies_mass_nonneg(m);
        lemma_survivor_mass_consume(s, c, i, j, s.len() as int);
        assert(s[i].mass + s[j].mass <= MASS_LIMIT) by {
            lemma_pair_mass_le(s, i, j);
        }
        lemma_merged_valid(s[i], s[j], cfg, next);
        lemma_mass_snoc(m, nb);
        assert(forall|l: int| 0 <= l < m2.len() ==> (#[trigger] m2[l]).valid());
        lemma_scan_mass(s, cfg, i, j + 1, (next - 1) as i64, c2, m2);
    } else {
        lemma_scan_mass(s, cfg, i, j + 1, next, c, m);
    }
}

/// The scan only appends to the product list; every new product's id is at
/// most the counter it started from (and above the word's minimum), and
/// every id it consumes is either already consumed or present in the
/// population.
proof fn lemma_scan_fresh(
    s: Seq<Body>,
    cfg: SimConfig,
    i: int,
    j: int,
    next: i64,
    c: Seq<i64>,
    m: Seq<Body>,
)
    ensures
        ({
            let (c2, m2) = spec_merge_scan(s, cfg, i, j, next, c, m);
            &&& m2.len() >= m.len()
            &&& forall|k: int| 0 <= k < m.len() ==> m2[k] == m[k]
            &&& forall|k: int|
                m.len() <= k < m2.len() ==> (#[trigger] m2[k]).id <= next && m2[k].id > i64::MIN
            &&& forall|x: i64|
                c2.contains(x) ==> c.contains(x) || (exists|l: int|
                    0 <= l < s.len() && (#[trigger] s[l]).id == x)
        }),
    decreases s.len() - i, (if j <= s.len() { s.len() - j } else { 0 }),
{
    if i < 0 || j <= i || i >= s.len() {
    } else if j >= s.len() {
        lemma_scan_fresh(s, cfg, i + 1, i + 2, next, c, m);
    } else if spec_close(s[i], s[j], cfg) && s[i].mass + s[j].mass >= 1 && next > i64::MIN
        && !c.contains(s[i].id) && !c.contains(s[j].id) {
        let c1 = c.push(s[i].id).push(s[j].id);
        let m1 = m.push(spec_merged(s[i], s[j], cfg, next));
        lemma_scan_fresh(s, cfg, i, j + 1, (next - 1) as i64, c1, m1);
        let (c2, m2) = spec_merge_scan(s, cfg, i, j + 1, (next - 1) as i64, c1, m1);
        assert forall|x: i64| c2.contains(x) implies c.contains(x) || (exists|l: int|
            0 <= l < s.len() && (#[trigger] s[l]).id == x) by {
            if !c.contains(x) {
                lemma_contains_push(c, s[i].id, x);
                lemma_contains_push(c.push(s[i].id), s[j].id, x);
                if x == s[i].id {
                    assert(0 <= i < s.len() && s[i].id == x);
                } else if x == s[j].id {
                    assert(0 <= j < s.len() && s[j].id == x);
                }
            }
        }
        assert(forall|k: int|
            m.len() <= k < m2.len() ==> (#[trigger] m2[k]).id <= next && m2[k].id > i64::MIN);
    } else {
        lemma_scan_fresh(s, cfg, i, j + 1, next, c, m);
    }
}

/// Every survivor's id escaped the consumed set.
proof fn lemma_survivors_not_consumed(s: Seq<Body>, c: Seq<i64>, k: int)
    requires
        0 <= k <= s.len(),
    ensures
        forall|l: int|
            0 <= l < spec_survivors_to(s, c, k).len() ==> !c.contains(
                (#[trigger] spec_survivors_to(s, c, k)[l]).id,
            ),
    decreases k,
{
    if k > 0 {
        lemma_survivors_not_consumed(s, c, k - 1);
        let pre = spec_survivors_to(s, c, k - 1);
        let cur = spec_survivors_to(s, c, k);
        assert forall|l: int| 0 <= l < cur.len() implies !c.contains((#[trigger] cur[l]).id) by {
            if !c.contains(s[k - 1].id) {
                if l < pre.len() {
                    assert(cur[l] == pre[l]);
                } else {
                    assert(cur[l] == s[k - 1]);
                }
            }
        }
    }
}

/// Two distinct bodies of a bounded population together stay within the
/// mass limit.
proof fn lemma_pair_mass_le(s: Seq<Body>, i: int, j: int)
    requires
        forall|l: int| 0 <= l < s.len() ==> (#[trigger] s[l]).valid(),
        spec_bodies_mass(s) <= MASS_LIMIT,
        0 <= i < j < s.len(),
    ensures
        s[i].mass + s[j].mass <= MASS_LIMIT,
{
    assert(additive_foldr(mass_fold()));
    let a = s.subrange(0, i);
    let b = s.subrange(i, i + 1);
    let cc = s.subrange(i + 1, j);
    let d = s.subrange(j, j + 1);
    let e = s.subrange(j + 1, s.len() as int);
    assert(s =~= a + b + cc + d + e);
    lemma_additive_fold_concat(a + b + cc + d, e, mass_fold());
    lemma_additive_fold_concat(a + b + cc, d, mass_fold());
    lemma_additive_fold_concat(a + b, cc, mass_fold());
    lemma_additive_fold_concat(a, b, mass_fold());
    assert(forall|l: int| 0 <= l < a.len() ==> (#[trigger] a[l]).valid());
    assert(forall|l: int| 0 <= l < cc.len() ==> (#[trigger] cc[l]).valid());
    assert(forall|l: int| 0 <= l < e.len() ==> (#[trigger] e[l]).valid());
    lemma_bodies_mass_nonneg(a);
    lemma_bodies_mass_nonneg(cc);
    lemma_bodies_mass_nonneg(e);
    lemma_mass_snoc(Seq::<Body>::empty(), s[i]);
    assert(b =~= Seq::<Body>::empty().push(s[i]));
    lemma_mass_snoc(Seq::<Body>::empty(), s[j]);
    assert(d =~= Seq::<Body>::empty().push(s[j]));
    assert(spec_bodies_mass(Seq::<Body>::empty()) == 0);
}

/// With nothing consumed, every body survives.
proof fn lemma_survivors_empty(s: Seq<Body>, c: Seq<i64>, k: int)
    requires
        c.len() == 0,
        0 <= k <= s.len(),
    ensures
        spec_survivors_to(s, c, k) =~= s.subrange(0, k),
    decreases k,
{
    if k > 0 {
        lemma_survivors_empty(s, c, k - 1);
        assert(!c.contains(s[k - 1].id));
        assert(s.subrange(0, k) =~= s.subrange(0, k - 1).push(s[k - 1]));
    }
}

/// Tests whether a value occurs in a vector.
fn vec_contains(v: &Vec<i64>, x: i64) -> (r: bool)
    ensures
        r == v@.contains(x),
{
    let n = v.len();
    let mut k: usize = 0;
    while k < n
        invariant
            k <= n,
            n == v.len(),
            forall|l: int| 0 <= l < k ==> v@[l] != x,
        decreases n - k,
    {
        if v[k] == x {
            return true;
        }
        k = k + 1;
    }
    false
}

/// The exact mass-weighted average of two weighted vectors.
fn weighted_avg(p1: &VecN, m1: i64, p2: &VecN, m2: i64) -> (r: VecN)
    requires
        p1.in_range(),
        p2.in_range(),
        0 <= m1 <= MASS_LIMIT,
        0 <= m2 <= MASS_LIMIT,
        1 <= m1 + m2,
    ensures
        r == spec_weighted_avg(*p1, m1 as int, *p2, m2 as int),
        r.in_range(),
    {
    proof {
        lemma_mul_abs_le(p1.coords[0] as int, COORD_LIMIT as int, m1 as int, m1 as int);
        lemma_mul_abs_le(p1.coords[1] as int, COORD_LIMIT as int, m1 as int, m1 as int);
        lemma_mul_abs_le(p2.coords[0] as int, COORD_LIMIT as int, m2 as int, m2 as int);
        lemma_mul_abs_le(p2.coords[1] as int, COORD_LIMIT as int, m2 as int, m2 as int);
        lemma_tdiv_abs_bound(
            m1 * p1.coords[0] + m2 * p2.coords[0],
            (m1 + m2) as int,
            COORD_LIMIT as int,
        );
        lemma_tdiv_abs_bound(
            m1 * p1.coords[1] + m2 * p2.coords[1],
            (m1 + m2) as int,
            COORD_LIMIT as int,
        );
    }
    let x = div_trunc(m1 * p1.coords[0] + m2 * p2.coords[0], m1 + m2);
    let y = div_trunc(m1 * p1.coords[1] + m2 * p2.coords[1], m1 + m2);
    let r = VecN::new([x, y]);
    proof {
        let sw = spec_weighted_avg(*p1, m1 as int, *p2, m2 as int);
        assert(r.coords =~= sw.coords);
    }
    r
}

/// One merge pass over the whole population: every close unordered pair is
/// found in ascending index order and greedily consumed — a pair is skipped
/// if either id was consumed earlier in the pass — and each consumed pair
/// is replaced by its merge product. The pass never raises the total mass.
pub fn merge_connected(bodies: &mut Vec<Body>, cfg: &SimConfig)
    requires
        valid_population(old(bodies)@),
        cfg.valid(),
    ensures
        final(bodies)@ == spec_merge_result(old(bodies)@, *cfg),
        valid_population(final(bodies)@),
        ({
            let (consumed, products) = spec_merge_scan(
                old(bodies)@,
                *cfg,
                0,
                1,
                spec_fresh_base(old(bodies)@),
                Seq::empty(),
                Seq::empty(),
            );
            &&& forall|k: int|
                0 <= k < final(bodies)@.len() ==> !consumed.contains(
                    (#[trigger] final(bodies)@[k]).id,
                )
            &&& forall|k: int, l: int|
                0 <= k < products.len() && 0 <= l < old(bodies)@.len() ==> (
                #[trigger] products[k]).id < (#[trigger] old(bodies)@[l]).id
            &&& forall|k: int| 0 <= k < products.len() ==> (#[trigger] products[k]).id < 0
        }),
{
    let ghost s = bodies@;
    let n = bodies.len();
    // the fresh ids for merge products count down from strictly below zero
    // and below every id present before the pass
    let mut min_id: i64 = 0;
    let mut k0: usize = 0;
    while k0 < n
        invariant
            k0 <= n,
            n == bodies.len(),
            bodies@ == s,
            valid_population(s),
            min_id == spec_min_id_to(s, k0 as int),
            min_id > i64::MIN,
        decreases n - k0,
    {
        if bodies[k0].id < min_id {
            min_id = bodies[k0].id;
        }
        k0 = k0 + 1;
    }
    let ghost base = spec_fresh_base(s);
    let mut next: i64 = min_id - 1;
    proof {
        assert(next == base);
    }
    let ghost goal = spec_merge_scan(s, *cfg, 0, 1, base, Seq::empty(), Seq::empty());
    let mut consumed: Vec<i64> = Vec::new();
    let mut merged: Vec<Body> = Vec::new();
    let mut i: usize = 0;
    while i < n
        invariant
            i <= n,
            n == bodies.len(),
            bodies@ == s,
            valid_population(s),
            cfg.valid(),
            goal == spec_merge_scan(s, *cfg, 0, 1, base, Seq::empty(), Seq::empty()),
            base == spec_fresh_base(s),
            next as int == base - merged@.len(),
            spec_merge_scan(s, *cfg, i as int, i as int + 1, next, consumed@, merged@) == goal,
            forall|l: int| 0 <= l < merged@.len() ==> (#[trigger] merged@[l]).valid(),
        decreases n - i,
    {
        let mut j: usize = i + 1;
        while j < n
            invariant
                i < j,
                j <= n + 1,
                i < n,
                n == bodies.len(),
                bodies@ == s,
                valid_population(s),
                cfg.valid(),
                goal == spec_merge_scan(s, *cfg, 0, 1, base, Seq::empty(), Seq::empty()),
                base == spec_fresh_base(s),
                next as int == base - merged@.len(),
                spec_merge_scan(s, *cfg, i as int, j as int, next, consumed@, merged@) == goal,
                forall|l: int| 0 <= l < merged@.len() ==> (#[trigger] merged@[l]).valid(),
            decreases n - j,
        {
            let a = bodies[i];
            let b = bodies[j];
            proof {
                crate::arith::lemma_square_bound(cfg.merge_threshold as int, 2 * COORD_LIMIT as int);
            }
            let d2 = a.pos.dist2(&b.pos);
            let close = d2 < cfg.merge_threshold * cfg.merge_threshold;
            if close && a.mass + b.mass >= 1 && next > i64::MIN && !vec_contains(&consumed, a.id)
                && !vec_contains(&consumed, b.id) {
                let sum = a.mass + b.mass;
                proof {
                    lemma_mul_abs_le(
                        sum as int,
                        (2 * MASS_LIMIT) as int,
                        cfg.damping_num as int,
                        MASS_LIMIT as int,
                    );
                    lemma_pair_mass_le(s, i as int, j as int);
                    lemma_merged_valid(a, b, *cfg, next);
                }
                let new_mass = div_trunc(sum * cfg.damping_num, cfg.damping_den);
                let new_body = Body {
                    id: next,
                    mass: new_mass,
                    rad: a.rad,
                    pos: weighted_avg(&a.pos, a.mass, &b.pos, b.mass),
                    vel: weighted_avg(&a.vel, a.mass, &b.vel, b.mass),
                    force: VecN::new([0, 0]),
                };
                proof {
                    assert(new_body.force.coords =~= spec_merged(a, b, *cfg, next).force.coords);
                    assert(new_body == spec_merged(a, b, *cfg, next));
                }
                consumed.push(a.id);
                consumed.push(b.id);
                merged.push(new_body);
                next = next - 1;
            }
            j = j + 1;
        }
        i = i + 1;
    }
    proof {
        lemma_scan_mass(s, *cfg, 0, 1, base, Seq::empty(), Seq::empty());
        lemma_scan_fresh(s, *cfg, 0, 1, base, Seq::empty(), Seq::empty());
        lemma_survivors_empty(s, Seq::empty(), s.len() as int);
        assert(s.subrange(0, s.len() as int) =~= s);
        lemma_min_id_le(s, s.len() as int);
    }
    // rebuild the working set: survivors in order, then the merge products
    let mut result: Vec<Body> = Vec::new();
    let mut k: usize = 0;
    while k < n
        invariant
            k <= n,
            n == bodies.len(),
            bodies@ == s,
            result@ == spec_survivors_to(s, consumed@, k as int),
        decreases n - k,
    {
        let b = bodies[k];
        if !vec_contains(&consumed, b.id) {
            result.push(b);
        }
        k = k + 1;
    }
    let ghost survivors = result@;
    let mut extra = merged;
    result.append(&mut extra);
    proof {
        assert(result@ == survivors + merged@);
        lemma_survivor_mass_bounds(s, consumed@, s.len() as int);
        assert(additive_foldr(mass_fold()));
        lemma_additive_fold_concat(survivors, merged@, mass_fold());
        lemma_bodies_mass_nonneg(merged@);
        assert(forall|l: int|
            0 <= l < result@.len() ==> (#[trigger] result@[l]).valid()) by {
            assert(forall|l: int|
                0 <= l < survivors.len() ==> (#[trigger] survivors[l]).valid());
            assert(forall|l: int|
                0 <= l < result@.len() && l >= survivors.len() ==> result@[l] == merged@[l
                    - survivors.len()]);
        }
        // freshness: a merge product's id is strictly below every pre-merge
        // id, so it is negative and cannot be any consumed id
        assert(forall|k: int, l: int|
            0 <= k < merged@.len() && 0 <= l < s.len() ==> (#[trigger] merged@[k]).id < (
            #[trigger] s[l]).id);
        assert(forall|k: int| 0 <= k < merged@.len() ==> (#[trigger] merged@[k]).id < 0);
        lemma_survivors_not_consumed(s, consumed@, s.len() as int);
        assert forall|k: int|
            0 <= k < result@.len() implies !consumed@.contains((#[trigger] result@[k]).id) by {
            if k < survivors.len() {
                assert(result@[k] == survivors[k]);
            } else {
                assert(result@[k] == merged@[k - survivors.len()]);
                if consumed@.contains(result@[k].id) {
                    let l = choose|l: int|
                        0 <= l < s.len() && (#[trigger] s[l]).id == result@[k].id;
                    assert(result@[k].id < s[l].id);
                }
            }
        }
    }
    *bodies = result;
}

/// The velocity component `i` of a body after one integration step.
pub open spec fn spec_new_vel(b: Body, cfg: SimConfig, i: int) -> int {
    if b.mass == 0 {
        b.vel.coords[i] as int
    } else {
        b.vel.coords[i] + spec_dv(b.force.coords[i] as int, b.mass as int, cfg)
    }
}

/// Whether a body's velocity update stays in the representable range.
pub open spec fn spec_vel_ok(b: Body, cfg: SimConfig) -> bool {
    &&& -COORD_LIMIT <= spec_new_vel(b, cfg, 0) <= COORD_LIMIT
    &&& -COORD_LIMIT <= spec_new_vel(b, cfg, 1) <= COORD_LIMIT
}

/// A body after its velocity update.
pub open spec fn spec_vel_updated(b: Body, cfg: SimConfig) -> Body {
    Body {
        vel: VecN {
            coords: [spec_new_vel(b, cfg, 0) as i64, spec_new_vel(b, cfg, 1) as i64],
        },
        ..b
    }
}

/// The position component `i` of a body after one integration step.
pub open spec fn spec_new_pos(b: Body, cfg: SimConfig, i: int) -> int {
    b.pos.coords[i] + spec_dx(b.vel.coords[i] as int, cfg)
}

/// Whether a body's position update stays in the representable range.
pub open spec fn spec_pos_ok(b: Body, cfg: SimConfig) -> bool {
    &&& -COORD_LIMIT <= spec_new_pos(b, cfg, 0) <= COORD_LIMIT
    &&& -COORD_LIMIT <= spec_new_pos(b, cfg, 1) <= COORD_LIMIT
}

/// A body after its position update.
pub open spec fn spec_pos_updated(b: Body, cfg: SimConfig) -> Body {
    Body {
        pos: VecN {
            coords: [spec_new_pos(b, cfg, 0) as i64, spec_new_pos(b, cfg, 1) as i64],
        },
        ..b
    }
}

/// A body with its force slot overwritten by the exact direct net force of
/// the whole population on it.
pub open spec fn spec_forces_body(s: Seq<Body>, k: int, cfg: SimConfig) -> Body {
    let b = s[k];
    Body {
        force: VecN {
            coords: [
                spec_bodies_force(s, b.pos, b.mass as int, b.id as int, cfg, 0) as i64,
                spec_bodies_force(s, b.pos, b.mass as int, b.id as int, cfg, 1) as i64,
            ],
        },
        ..b
    }
}

/// The population with every force slot overwritten by the exact direct
/// net force on that body.
pub open spec fn spec_forces_phase(s: Seq<Body>, cfg: SimConfig) -> Seq<Body> {
    Seq::new(s.len(), |k: int| spec_forces_body(s, k, cfg))
}

/// The population after the velocity half-step.
pub open spec fn spec_vel_phase(s: Seq<Body>, cfg: SimConfig) -> Seq<Body> {
    Seq::new(s.len(), |k: int| spec_vel_updated(s[k], cfg))
}

/// The population after the position half-step.
pub open spec fn spec_pos_phase(s: Seq<Body>, cfg: SimConfig) -> Seq<Body> {
    Seq::new(s.len(), |k: int| spec_pos_updated(s[k], cfg))
}

/// The first body whose velocity update leaves the range, or the length.
pub open spec fn spec_first_vel_fault(s: Seq<Body>, cfg: SimConfig, k: int) -> int
    decreases s.len() - k,
{
    if k < 0 || k >= s.len() {
        s.len() as int
    } else if !spec_vel_ok(s[k], cfg) {
        k
    } else {
        spec_first_vel_fault(s, cfg, k + 1)
    }
}

/// The first body whose position update leaves the range, or the length.
pub open spec fn spec_first_pos_fault(s: Seq<Body>, cfg: SimConfig, k: int) -> int
    decreases s.len() - k,
{
    if k < 0 || k >= s.len() {
        s.len() as int
    } else if !spec_pos_ok(s[k], cfg) {
        k
    } else {
        spec_first_pos_fault(s, cfg, k + 1)
    }
}

/// Whether a whole integration step (velocities for all bodies, then
/// positions for all bodies) stays in range for a population whose forces
/// are already set.
pub open spec fn spec_integrate_ok(s: Seq<Body>, cfg: SimConfig) -> bool {
    &&& spec_first_vel_fault(s, cfg, 0) == s.len()
    &&& spec_first_pos_fault(spec_vel_phase(s, cfg), cfg, 0) == spec_vel_phase(s, cfg).len()
}

/// The id of the body where the integration of a forces-set population
/// first leaves the range: numerical divergence, the fatal fault of the
/// simulation.
pub open spec fn spec_integrate_fault_id(s: Seq<Body>, cfg: SimConfig) -> i64 {
    let fv = spec_first_vel_fault(s, cfg, 0);
    if fv < s.len() {
        s[fv].id
    } else {
        let vs = spec_vel_phase(s, cfg);
        vs[spec_first_pos_fault(vs, cfg, 0)].id
    }
}

/// One full simulation step under direct force evaluation: forces, then
/// velocity and position integration, then the merge pass.
pub open spec fn spec_step(s: Seq<Body>, cfg: SimConfig) -> Seq<Body> {
    spec_merge_result(
        spec_pos_phase(spec_vel_phase(spec_forces_phase(s, cfg), cfg), cfg),
        cfg,
    )
}

/// Whether one full step avoids the numeric fault.
pub open spec fn spec_step_ok(s: Seq<Body>, cfg: SimConfig) -> bool {
    spec_integrate_ok(spec_forces_phase(s, cfg), cfg)
}

/// The population after `n` direct-evaluation steps.
pub open spec fn spec_run(s: Seq<Body>, cfg: SimConfig, n: int) -> Seq<Body>
    decreases n,
{
    if n <= 0 {
        s
    } else {
        spec_step(spec_run(s, cfg, n - 1), cfg)
    }
}

/// Whether `n` direct-evaluation steps all avoid the numeric fault.
pub open spec fn spec_run_ok(s: Seq<Body>, cfg: SimConfig, n: int) -> bool
    decreases n,
{
    if n <= 0 {
        true
    } else {
        spec_run_ok(s, cfg, n - 1) && spec_step_ok(spec_run(s, cfg, n - 1), cfg)
    }
}

/// Two populations with the same masses, positions and ids slot by slot.
pub open spec fn same_kinematics(s1: Seq<Body>, s2: Seq<Body>) -> bool {
    &&& s1.len() == s2.len()
    &&& forall|k: int|
        0 <= k < s1.len() ==> (#[trigger] s1[k]).mass == s2[k].mass && s1[k].pos == s2[k].pos
            && s1[k].id == s2[k].id
}

/// The direct net force depends only on masses, positions and ids.
proof fn lemma_force_same_kinematics(
    s1: Seq<Body>,
    s2: Seq<Body>,
    qpos: VecN,
    qm: int,
    qid: int,
    cfg: SimConfig,
    i: int,
)
    requires
        same_kinematics(s1, s2),
    ensures
        spec_bodies_force(s1, qpos, qm, qid, cfg, i) == spec_bodies_force(s2, qpos, qm, qid, cfg, i),
    decreases s1.len(),
{
    let f = force_fold(qpos, qm, qid, cfg, i);
    assert(additive_foldr(f));
    if s1.len() > 0 {
        assert(s1.drop_last() =~= s1.subrange(0, s1.len() - 1));
        assert(s2.drop_last() =~= s2.subrange(0, s2.len() - 1));
        lemma_force_same_kinematics(s1.drop_last(), s2.drop_last(), qpos, qm, qid, cfg, i);
        lemma_additive_fold_offset(s1.drop_last(), f, f(s1.last(), 0));
        lemma_additive_fold_offset(s2.drop_last(), f, f(s2.last(), 0));
        assert(spec_body_contrib(s1.last(), qpos, qm, qid, cfg, i) == spec_body_contrib(
            s2.last(),
            qpos,
            qm,
            qid,
            cfg,
            i,
        ));
    }
}

/// The total mass depends only on the masses.
proof fn lemma_mass_same_kinematics(s1: Seq<Body>, s2: Seq<Body>)
    requires
        same_kinematics(s1, s2),
    ensures
        spec_bodies_mass(s1) == spec_bodies_mass(s2),
    decreases s1.len(),
{
    assert(additive_foldr(mass_fold()));
    if s1.len() > 0 {
        assert(s1.drop_last() =~= s1.subrange(0, s1.len() - 1));
        assert(s2.drop_last() =~= s2.subrange(0, s2.len() - 1));
        lemma_mass_same_kinematics(s1.drop_last(), s2.drop_last());
        lemma_additive_fold_offset(s1.drop_last(), mass_fold(), mass_fold()(s1.last(), 0));
        lemma_additive_fold_offset(s2.drop_last(), mass_fold(), mass_fold()(s2.last(), 0));
    }
}

/// Computes the exact direct (pairwise) net force of the whole population
/// on the body in slot `k`, skipping self-interaction by id.
pub fn direct_force(bodies: &Vec<Body>, k: usize, cfg: &SimConfig) -> (f: VecN)
    requires
        valid_population(bodies@),
        cfg.valid(),
        k < bodies.len(),
    ensures
        f.coords[0] == spec_bodies_force(
            bodies@,
            bodies@[k as int].pos,
            bodies@[k as int].mass as int,
            bodies@[k as int].id as int,
            *cfg,
            0,
        ),
        f.coords[1] == spec_bodies_force(
            bodies@,
            bodies@[k as int].pos,
            bodies@[k as int].mass as int,
            bodies@[k as int].id as int,
            *cfg,
            1,
        ),
        -FORCE_LIMIT <= f.coords[0] <= FORCE_LIMIT,
        -FORCE_LIMIT <= f.coords[1] <= FORCE_LIMIT,
{
    let me = bodies[k];
    let ghost qpos = me.pos;
    let ghost qm = me.mass as int;
    let ghost qid = me.id as int;
    let ghost gm = cfg.g * me.mass;
    proof {
        crate::arith::lemma_mul_le(cfg.g as int, MASS_LIMIT as int, me.mass as int, MASS_LIMIT as int);
    }
    let mut fx: i64 = 0;
    let mut fy: i64 = 0;
    let n = bodies.len();
    let mut l: usize = 0;
    while l < n
        invariant
            l <= n,
            n == bodies.len(),
            k < n,
            valid_population(bodies@),
            cfg.valid(),
            qpos == bodies@[k as int].pos,
            qm == bodies@[k as int].mass as int,
            qid == bodies@[k as int].id as int,
            me == bodies@[k as int],
            gm == cfg.g * me.mass,
            0 <= gm <= MASS_LIMIT * MASS_LIMIT,
            fx == spec_bodies_force(bodies@.subrange(0, l as int), qpos, qm, qid, *cfg, 0),
            fy == spec_bodies_force(bodies@.subrange(0, l as int), qpos, qm, qid, *cfg, 1),
        decreases n - l,
    {
        let ghost pre = bodies@.subrange(0, l as int);
        proof {
            assert(additive_foldr(mass_fold()));
            assert(additive_foldr(force_fold(qpos, qm, qid, *cfg, 0)));
            assert(additive_foldr(force_fold(qpos, qm, qid, *cfg, 1)));
            assert(forall|j: int| 0 <= j < pre.len() ==> (#[trigger] pre[j]).valid());
            lemma_bodies_force_bound(pre, qpos, qm, qid, *cfg, 0, gm);
            lemma_bodies_force_bound(pre, qpos, qm, qid, *cfg, 1, gm);
            lemma_additive_fold_snoc(bodies@, force_fold(qpos, qm, qid, *cfg, 0), l as int);
            lemma_additive_fold_snoc(bodies@, force_fold(qpos, qm, qid, *cfg, 1), l as int);
            lemma_additive_fold_snoc(bodies@, mass_fold(), l as int);
            crate::force::lemma_force_comp_bound(
                qm,
                qpos,
                bodies@[l as int].mass as int,
                bodies@[l as int].pos,
                *cfg,
                0,
            );
            crate::force::lemma_force_comp_bound(
                qm,
                qpos,
                bodies@[l as int].mass as int,
                bodies@[l as int].pos,
                *cfg,
                1,
            );
            let rest = bodies@.subrange(l as int + 1, n as int);
            assert(bodies@ =~= bodies@.subrange(0, l as int + 1) + rest);
            lemma_additive_fold_concat(bodies@.subrange(0, l as int + 1), rest, mass_fold());
            assert(forall|j: int| 0 <= j < rest.len() ==> (#[trigger] rest[j]).valid());
            lemma_bodies_mass_nonneg(rest);
            lemma_bodies_mass_nonneg(bodies@.subrange(0, l as int + 1));
            lemma_bodies_mass_nonneg(pre);
            let mb = bodies@[l as int].mass as int;
            assert(gm * spec_bodies_mass(pre) + gm * mb == gm * (spec_bodies_mass(pre) + mb)
                && gm * (spec_bodies_mass(pre) + mb) <= (MASS_LIMIT * MASS_LIMIT) as int
                    * MASS_LIMIT as int
                && 0 <= gm * (spec_bodies_mass(pre) + mb)
                && gm * mb <= (MASS_LIMIT * MASS_LIMIT) as int * MASS_LIMIT as int)
                by (nonlinear_arith)
                requires
                    0 <= gm <= MASS_LIMIT * MASS_LIMIT,
                    0 <= mb,
                    0 <= spec_bodies_mass(pre),
                    spec_bodies_mass(pre) + mb <= MASS_LIMIT,
            {}
        }
        let b = bodies[l];
        if b.id != me.id {
            let cf = crate::force::force_between(me.mass, &me.pos, b.mass, &b.pos, cfg);
            fx = fx + cf.coords[0];
            fy = fy + cf.coords[1];
        } else {
            proof {
                assert(spec_body_contrib(b, qpos, qm, qid, *cfg, 0) == 0);
                assert(spec_body_contrib(b, qpos, qm, qid, *cfg, 1) == 0);
            }
        }
        l = l + 1;
    }
    proof {
        assert(bodies@.subrange(0, n as int) =~= bodies@);
        lemma_bodies_mass_nonneg(bodies@);
        lemma_bodies_force_bound(bodies@, qpos, qm, qid, *cfg, 0, gm);
        lemma_bodies_force_bound(bodies@, qpos, qm, qid, *cfg, 1, gm);
        assert(gm * spec_bodies_mass(bodies@) <= (MASS_LIMIT * MASS_LIMIT) as int
            * MASS_LIMIT as int && 0 <= gm * spec_bodies_mass(bodies@)) by (nonlinear_arith)
            requires
                0 <= gm <= MASS_LIMIT * MASS_LIMIT,
                0 <= spec_bodies_mass(bodies@) <= MASS_LIMIT,
        {}
    }
    VecN::new([fx, fy])
}

/// Two populations with equal masses slot by slot.
pub open spec fn same_masses(s1: Seq<Body>, s2: Seq<Body>) -> bool {
    &&& s1.len() == s2.len()
    &&& forall|k: int| 0 <= k < s1.len() ==> (#[trigger] s1[k]).mass == s2[k].mass
}

/// The total mass depends only on the masses.
proof fn lemma_mass_same_masses(s1: Seq<Body>, s2: Seq<Body>)
    requires
        same_masses(s1, s2),
    ensures
        spec_bodies_mass(s1) == spec_bodies_mass(s2),
    decreases s1.len(),
{
    assert(additive_foldr(mass_fold()));
    if s1.len() > 0 {
        assert(s1.drop_last() =~= s1.subrange(0, s1.len() - 1));
        assert(s2.drop_last() =~= s2.subrange(0, s2.len() - 1));
        lemma_mass_same_masses(s1.drop_last(), s2.drop_last());
        lemma_additive_fold_offset(s1.drop_last(), mass_fold(), mass_fold()(s1.last(), 0));
        lemma_additive_fold_offset(s2.drop_last(), mass_fold(), mass_fold()(s2.last(), 0));
    }
}

/// Overwrites every body's force slot with the exact direct net force the
/// whole population exerts on it. Each slot is written exactly once; no
/// force is read while any is being written.
pub fn update_forces(bodies: &mut Vec<Body>, cfg: &SimConfig)
    requires
        valid_population(old(bodies)@),
        cfg.valid(),
    ensures
        final(bodies)@ == spec_forces_phase(old(bodies)@, *cfg),
        valid_population(final(bodies)@),
{
    let ghost s0 = bodies@;
    let n = bodies.len();
    let mut k: usize = 0;
    while k < n
        invariant
            k <= n,
            n == bodies.len(),
            s0.len() == n,
            cfg.valid(),
            valid_population(s0),
            valid_population(bodies@),
            same_kinematics(bodies@, s0),
            forall|l: int| 0 <= l < k ==> bodies@[l] == spec_forces_body(s0, l, *cfg),
            forall|l: int| k <= l < n ==> bodies@[l] == s0[l],
        decreases n - k,
    {
        let f = direct_force(bodies, k, cfg);
        proof {
            lemma_force_same_kinematics(
                bodies@,
                s0,
                s0[k as int].pos,
                s0[k as int].mass as int,
                s0[k as int].id as int,
                *cfg,
                0,
            );
            lemma_force_same_kinematics(
                bodies@,
                s0,
                s0[k as int].pos,
                s0[k as int].mass as int,
                s0[k as int].id as int,
                *cfg,
                1,
            );
        }
        let mut b = bodies[k];
        b.force = f;
        bodies[k] = b;
        proof {
            assert(b.force.coords =~= spec_forces_body(s0, k as int, *cfg).force.coords);
            assert(bodies@[k as int] == spec_forces_body(s0, k as int, *cfg));
            lemma_mass_same_masses(bodies@, s0);
        }
        k = k + 1;
    }
    proof {
        assert(bodies@ =~= spec_forces_phase(s0, *cfg));
    }
}

/// The first velocity fault beyond a fault-free range is the first fault
/// overall.
proof fn lemma_first_vel_from(s: Seq<Body>, cfg: SimConfig, j: int, k: int)
    requires
        0 <= j <= k <= s.len(),
        forall|l: int| j <= l < k ==> spec_vel_ok(#[trigger] s[l], cfg),
    ensures
        spec_first_vel_fault(s, cfg, j) == spec_first_vel_fault(s, cfg, k),
    decreases k - j,
{
    if j < k {
        lemma_first_vel_from(s, cfg, j + 1, k);
    }
}

/// The first position fault beyond a fault-free range is the first fault
/// overall.
proof fn lemma_first_pos_from(s: Seq<Body>, cfg: SimConfig, j: int, k: int)
    requires
        0 <= j <= k <= s.len(),
        forall|l: int| j <= l < k ==> spec_pos_ok(#[trigger] s[l], cfg),
    ensures
        spec_first_pos_fault(s, cfg, j) == spec_first_pos_fault(s, cfg, k),
    decreases k - j,
{
    if j < k {
        lemma_first_pos_from(s, cfg, j + 1, k);
    }
}

/// Integrates one time step over a population whose forces are already set:
/// every body's velocity is updated first, then every body's position, each
/// by the exact integer update. Returns the id of the first body whose
/// update would leave the representable coordinate range — the fatal
/// numeric fault — or nothing if the whole step stays in range.
pub fn integrate(bodies: &mut Vec<Body>, cfg: &SimConfig) -> (fault: Option<i64>)
    requires
        valid_population(old(bodies)@),
        cfg.valid(),
    ensures
        valid_population(final(bodies)@),
        (fault is None) == spec_integrate_ok(old(bodies)@, *cfg),
        fault is None ==> final(bodies)@ == spec_pos_phase(
            spec_vel_phase(old(bodies)@, *cfg),
            *cfg,
        ),
        fault is Some ==> fault.unwrap() == spec_integrate_fault_id(old(bodies)@, *cfg),
{
    let ghost s0 = bodies@;
    let n = bodies.len();
    let mut k: usize = 0;
    while k < n
        invariant
            k <= n,
            n == bodies.len(),
            s0.len() == n,
            s0 == old(bodies)@,
            cfg.valid(),
            valid_population(s0),
            valid_population(bodies@),
            forall|l: int| 0 <= l < k ==> bodies@[l] == spec_vel_updated(s0[l], *cfg),
            forall|l: int| 0 <= l < k ==> spec_vel_ok(#[trigger] s0[l], *cfg),
            forall|l: int| k <= l < n ==> bodies@[l] == s0[l],
        decreases n - k,
    {
        let mut b = bodies[k];
        let ghost borig = bodies@[k as int];
        let ok = b.update_velocity(cfg);
        if !ok {
            proof {
                assert(borig == s0[k as int]);
                assert(!spec_vel_ok(s0[k as int], *cfg));
                lemma_first_vel_from(s0, *cfg, 0, k as int);
                assert(spec_first_vel_fault(s0, *cfg, k as int) == k as int);
                assert(!spec_integrate_ok(s0, *cfg));
                assert(spec_integrate_fault_id(s0, *cfg) == s0[k as int].id);
            }
            return Some(b.id);
        }
        bodies[k] = b;
        proof {
            assert(b.vel.coords =~= spec_vel_updated(s0[k as int], *cfg).vel.coords);
            assert(bodies@[k as int] == spec_vel_updated(s0[k as int], *cfg));
            lemma_mass_same_masses(bodies@, s0);
        }
        k = k + 1;
    }
    proof {
        lemma_first_vel_from(s0, *cfg, 0, n as int);
        assert(bodies@ =~= spec_vel_phase(s0, *cfg));
    }
    let ghost s1 = bodies@;
    let mut k: usize = 0;
    while k < n
        invariant
            k <= n,
            n == bodies.len(),
            s1.len() == n,
            s0 == old(bodies)@,
            cfg.valid(),
            valid_population(s1),
            valid_population(bodies@),
            s1 == spec_vel_phase(s0, *cfg),
            spec_first_vel_fault(s0, *cfg, 0) == s0.len(),
            s0.len() == n,
            forall|l: int| 0 <= l < k ==> bodies@[l] == spec_pos_updated(s1[l], *cfg),
            forall|l: int| 0 <= l < k ==> spec_pos_ok(#[trigger] s1[l], *cfg),
            forall|l: int| k <= l < n ==> bodies@[l] == s1[l],
        decreases n - k,
    {
        let mut b = bodies[k];
        let ghost borig = bodies@[k as int];
        let ok = b.update_position(cfg);
        if !ok {
            proof {
                assert(borig == s1[k as int]);
                assert(!spec_pos_ok(s1[k as int], *cfg));
                lemma_first_pos_from(s1, *cfg, 0, k as int);
                assert(spec_first_pos_fault(s1, *cfg, k as int) == k as int);
                assert(!spec_integrate_ok(s0, *cfg));
                assert(spec_integrate_fault_id(s0, *cfg) == s1[k as int].id);
            }
            return Some(b.id);
        }
        bodies[k] = b;
        proof {
            assert(b.pos.coords =~= spec_pos_updated(s1[k as int], *cfg).pos.coords);
            assert(bodies@[k as int] == spec_pos_updated(s1[k as int], *cfg));
            lemma_mass_same_masses(bodies@, s1);
        }
        k = k + 1;
    }
    proof {
        lemma_first_pos_from(s1, *cfg, 0, n as int);
        assert(bodies@ =~= spec_pos_phase(s1, *cfg));
    }
    None
}

/// A run that stays fault-free for `n` steps is fault-free for any fewer.
proof fn lemma_run_ok_mono(s: Seq<Body>, cfg: SimConfig, m: int, n: int)
    requires
        0 <= m <= n,
        spec_run_ok(s, cfg, n),
    ensures
        spec_run_ok(s, cfg, m),
    decreases n,
{
    if m < n {
        lemma_run_ok_mono(s, cfg, m, n - 1);
    }
}

/// A fatal numeric fault: the body whose integration left the representable
/// range, and the step at which it happened.
#[derive(Clone, Copy, Debug, PartialEq, Eq)]
pub struct SimFault {
    /// The id of the diverging body
    pub body_id: i64,
    /// The zero-based step index at which the divergence was detected
    pub step: usize,
}

/// Runs the population for `steps` time steps under direct (pairwise) force
/// evaluation: per step, every force slot is overwritten, velocities and
/// positions are integrated, and close bodies are merged. Stops with the
/// faulting body and step index at the first numeric fault.
pub fn naive(bodies: &mut Vec<Body>, steps: usize, cfg: &SimConfig) -> (r: Result<(), SimFault>)
    requires
        valid_population(old(bodies)@),
        cfg.valid(),
    ensures
        valid_population(final(bodies)@),
        (r is Ok) == spec_run_ok(old(bodies)@, *cfg, steps as int),
        r is Ok ==> final(bodies)@ == spec_run(old(bodies)@, *cfg, steps as int),
        (r matches Err(f) ==> {
            &&& f.step < steps
            &&& spec_run_ok(old(bodies)@, *cfg, f.step as int)
            &&& !spec_step_ok(spec_run(old(bodies)@, *cfg, f.step as int), *cfg)
            &&& f.body_id == spec_integrate_fault_id(
                spec_forces_phase(spec_run(old(bodies)@, *cfg, f.step as int), *cfg),
                *cfg,
            )
        }),
{
    let ghost s0 = bodies@;
    let mut s: usize = 0;
    while s < steps
        invariant
            s <= steps,
            s0 == old(bodies)@,
            cfg.valid(),
            valid_population(bodies@),
            bodies@ == spec_run(s0, *cfg, s as int),
            spec_run_ok(s0, *cfg, s as int),
        decreases steps - s,
    {
        let ghost before = bodies@;
        update_forces(bodies, cfg);
        match integrate(bodies, cfg) {
            Some(id) => {
                proof {
                    assert(!spec_step_ok(before, *cfg));
                    if spec_run_ok(s0, *cfg, steps as int) {
                        lemma_run_ok_mono(s0, *cfg, s as int + 1, steps as int);
                    }
                }
                return Err(SimFault { body_id: id, step: s });
            },
            None => {},
        }
        merge_connected(bodies, cfg);
        proof {
            assert(bodies@ == spec_step(before, *cfg));
            assert(bodies@ == spec_run(s0, *cfg, s as int + 1));
        }
        s = s + 1;
    }
    Ok(())
}

/// Builds the bucket tree over the simulation region from the current body
/// population and computes its multipole aggregates: the tree holds exactly
/// the bodies of positive mass (the rest are inert and ignored by tree
/// insertion), and its root mass is the exact total mass of the population.
pub fn build_quadtree(bodies: &Vec<Body>, cfg: &SimConfig) -> (t: QuadTreeNode)
    requires
        valid_population(bodies@),
        cfg.valid(),
    ensures
        t.wf(),
        t.aggregated(),
        subtree_bodies(t).to_multiset() == spec_positives(bodies@).to_multiset(),
        t.mass == spec_bodies_mass(bodies@),
{
    broadcast use vstd::seq_lib::group_to_multiset_ensures;

    let half = div_trunc(cfg.max_dist, 2);
    let mut t = QuadTreeNode::new(VecN::new([half, half]), cfg.max_dist);
    let n = bodies.len();
    let mut k: usize = 0;
    proof {
        assert(bodies@.subrange(0, 0) =~= Seq::<Body>::empty());
    }
    while k < n
        invariant
            k <= n,
            n == bodies.len(),
            cfg.valid(),
            valid_population(bodies@),
            t.wf(),
            subtree_bodies(t).to_multiset() == spec_positives(
                bodies@.subrange(0, k as int),
            ).to_multiset(),
        decreases n - k,
    {
        broadcast use vstd::seq_lib::group_to_multiset_ensures;

        let b = bodies[k];
        t.insert(b);
        proof {
            assert(bodies@.subrange(0, k as int + 1) =~= bodies@.subrange(0, k as int).push(b));
            lemma_positives_push(bodies@.subrange(0, k as int), b);
        }
        k = k + 1;
    }
    proof {
        assert(bodies@.subrange(0, n as int) =~= bodies@);
        lemma_positives_same_physics(bodies@, VecN { coords: [0, 0] }, 0, 0, *cfg, 0);
        lemma_bodies_mass_permutation(subtree_bodies(t), spec_positives(bodies@));
    }
    t.compute_multipole_expansion();
    proof {
        lemma_bodies_mass_permutation(subtree_bodies(t), spec_positives(bodies@));
    }
    t
}

/// A body with its force slot overwritten by the force the bucket tree
/// exerts on it.
pub open spec fn spec_tree_forces_body(
    tree: QuadTreeNode,
    s: Seq<Body>,
    k: int,
    cfg: SimConfig,
) -> Body {
    let b = s[k];
    Body {
        force: VecN {
            coords: [
                spec_bucket_force(tree, b.pos, b.mass as int, b.id as int, cfg, 0) as i64,
                spec_bucket_force(tree, b.pos, b.mass as int, b.id as int, cfg, 1) as i64,
            ],
        },
        ..b
    }
}

/// Overwrites every body's force slot with the force the bucket tree exerts
/// on it under the Barnes-Hut criterion. With `theta` zero this equals the
/// exact direct force phase.
pub fn update_forces_tree(bodies: &mut Vec<Body>, tree: &QuadTreeNode, cfg: &SimConfig)
    requires
        valid_population(old(bodies)@),
        cfg.valid(),
        tree.wf(),
        tree.aggregated(),
        subtree_bodies(*tree).to_multiset() == spec_positives(old(bodies)@).to_multiset(),
    ensures
        valid_population(final(bodies)@),
        final(bodies)@.len() == old(bodies)@.len(),
        forall|k: int|
            0 <= k < old(bodies)@.len() ==> final(bodies)@[k] == spec_tree_forces_body(
                *tree,
                old(bodies)@,
                k,
                *cfg,
            ),
        cfg.theta_num == 0 ==> final(bodies)@ == spec_forces_phase(old(bodies)@, *cfg),
{
    let ghost s0 = bodies@;
    let n = bodies.len();
    let mut k: usize = 0;
    while k < n
        invariant
            k <= n,
            n == bodies.len(),
            s0.len() == n,
            s0 == old(bodies)@,
            cfg.valid(),
            tree.wf(),
            tree.aggregated(),
            tree.mass <= MASS_LIMIT,
            valid_population(s0),
            valid_population(bodies@),
            forall|l: int| 0 <= l < k ==> bodies@[l] == spec_tree_forces_body(*tree, s0, l, *cfg),
            forall|l: int| k <= l < n ==> bodies@[l] == s0[l],
        decreases n - k,
    {
        let mut b = bodies[k];
        let f = tree.evaluate_force(&b, cfg);
        proof {
            crate::arith::lemma_mul_le(cfg.g as int, MASS_LIMIT as int, b.mass as int, MASS_LIMIT as int);
            assert(cfg.g * b.mass * tree.mass <= (MASS_LIMIT * MASS_LIMIT) as int
                * MASS_LIMIT as int && 0 <= cfg.g * b.mass * tree.mass) by (nonlinear_arith)
                requires
                    0 <= cfg.g * b.mass <= MASS_LIMIT * MASS_LIMIT,
                    0 <= tree.mass <= MASS_LIMIT,
            {}
        }
        b.force = f;
        bodies[k] = b;
        proof {
            assert(b.force.coords =~= spec_tree_forces_body(*tree, s0, k as int, *cfg).force.coords);
            assert(bodies@[k as int] == spec_tree_forces_body(*tree, s0, k as int, *cfg));
            lemma_mass_same_masses(bodies@, s0);
        }
        k = k + 1;
    }
    proof {
        if cfg.theta_num == 0 {
            assert forall|l: int| 0 <= l < n implies bodies@[l] == spec_forces_body(s0, l, *cfg) by {
                lemma_theta_zero_exact(*tree, s0[l].pos, s0[l].mass as int, s0[l].id as int, *cfg, 0);
                lemma_theta_zero_exact(*tree, s0[l].pos, s0[l].mass as int, s0[l].id as int, *cfg, 1);
                lemma_direct_force_permutation(
                    subtree_bodies(*tree),
                    spec_positives(s0),
                    s0[l].pos,
                    s0[l].mass as int,
                    s0[l].id as int,
                    *cfg,
                    0,
                );
                lemma_direct_force_permutation(
                    subtree_bodies(*tree),
                    spec_positives(s0),
                    s0[l].pos,
                    s0[l].mass as int,
                    s0[l].id as int,
                    *cfg,
                    1,
                );
                lemma_positives_same_physics(s0, s0[l].pos, s0[l].mass as int, s0[l].id as int, *cfg, 0);
                lemma_positives_same_physics(s0, s0[l].pos, s0[l].mass as int, s0[l].id as int, *cfg, 1);
                assert(bodies@[l].force.coords =~= spec_forces_body(s0, l, *cfg).force.coords);
            }
            assert(bodies@ =~= spec_forces_phase(s0, *cfg));
        }
    }
}

/// A tree one step of the bucket-tree driver may evaluate forces against:
/// well-formed, aggregated, and holding exactly the positive-mass bodies of
/// the step's starting population.
pub open spec fn spec_is_step_tree(t: QuadTreeNode, s: Seq<Body>, cfg: SimConfig) -> bool {
    &&& t.wf()
    &&& t.aggregated()
    &&& subtree_bodies(t).to_multiset() == spec_positives(s).to_multiset()
}

/// The population with every force slot overwritten by the bucket-tree
/// evaluation against `t`.
pub open spec fn spec_tree_forces_phase(t: QuadTreeNode, s: Seq<Body>, cfg: SimConfig) -> Seq<
    Body,
> {
    Seq::new(s.len(), |k: int| spec_tree_forces_body(t, s, k, cfg))
}

/// One full simulation step under bucket-tree evaluation against `t`:
/// forces from the tree, then velocity and position integration, then the
/// merge pass.
pub open spec fn spec_tree_step(t: QuadTreeNode, s: Seq<Body>, cfg: SimConfig) -> Seq<Body> {
    spec_merge_result(
        spec_pos_phase(spec_vel_phase(spec_tree_forces_phase(t, s, cfg), cfg), cfg),
        cfg,
    )
}

/// Whether one tree-evaluated step avoids the numeric fault.
pub open spec fn spec_tree_step_ok(t: QuadTreeNode, s: Seq<Body>, cfg: SimConfig) -> bool {
    spec_integrate_ok(spec_tree_forces_phase(t, s, cfg), cfg)
}

/// `s1` is reachable from `s0` by `n` fault-free tree-evaluated steps: each
/// step evaluates its forces against some tree holding exactly that step's
/// positive-mass population.
pub open spec fn spec_tree_run(s0: Seq<Body>, s1: Seq<Body>, cfg: SimConfig, n: int) -> bool
    decreases n,
{
    if n <= 0 {
        s1 == s0
    } else {
        exists|mid: Seq<Body>, t: QuadTreeNode|
            {
                &&& #[trigger] spec_is_step_tree(t, mid, cfg)
                &&& spec_tree_run(s0, mid, cfg, n - 1)
                &&& spec_tree_step_ok(t, mid, cfg)
                &&& s1 == spec_tree_step(t, mid, cfg)
            }
    }
}

/// Runs the population for `steps` time steps under the bucket-tree
/// (first-order multipole) evaluator: per step the tree is rebuilt from the
/// current positions, forces are evaluated against the immutable tree,
/// velocities and positions are integrated, and close bodies are merged.
/// On success the final population is reachable from the initial one by
/// exactly `steps` tree-evaluated steps ([`spec_tree_run`]), each against a
/// tree holding that step's positive-mass bodies; with `theta` zero the run
/// is, exactly, the direct-evaluation run.
pub fn fmm(bodies: &mut Vec<Body>, steps: usize, cfg: &SimConfig) -> (r: Result<(), SimFault>)
    requires
        valid_population(old(bodies)@),
        cfg.valid(),
    ensures
        valid_population(final(bodies)@),
        r is Ok ==> spec_tree_run(old(bodies)@, final(bodies)@, *cfg, steps as int),
        (r matches Err(f) ==> f.step < steps && exists|mid: Seq<Body>, t: QuadTreeNode|
            {
                &&& #[trigger] spec_is_step_tree(t, mid, *cfg)
                &&& spec_tree_run(old(bodies)@, mid, *cfg, f.step as int)
                &&& !spec_tree_step_ok(t, mid, *cfg)
                &&& f.body_id == spec_integrate_fault_id(spec_tree_forces_phase(t, mid, *cfg), *cfg)
            }),
        cfg.theta_num == 0 ==> (r is Ok) == spec_run_ok(old(bodies)@, *cfg, steps as int),
        cfg.theta_num == 0 && r is Ok ==> final(bodies)@ == spec_run(
            old(bodies)@,
            *cfg,
            steps as int,
        ),
        cfg.theta_num == 0 ==> (r matches Err(f) ==> {
            &&& f.step < steps
            &&& spec_run_ok(old(bodies)@, *cfg, f.step as int)
            &&& !spec_step_ok(spec_run(old(bodies)@, *cfg, f.step as int), *cfg)
            &&& f.body_id == spec_integrate_fault_id(
                spec_forces_phase(spec_run(old(bodies)@, *cfg, f.step as int), *cfg),
                *cfg,
            )
        }),
{
    let ghost s0 = bodies@;
    let mut s: usize = 0;
    while s < steps
        invariant
            s <= steps,
            s0 == old(bodies)@,
            cfg.valid(),
            valid_population(bodies@),
            spec_tree_run(s0, bodies@, *cfg, s as int),
            cfg.theta_num == 0 ==> bodies@ == spec_run(s0, *cfg, s as int),
            cfg.theta_num == 0 ==> spec_run_ok(s0, *cfg, s as int),
        decreases steps - s,
    {
        let ghost before = bodies@;
        let tree = build_quadtree(bodies, cfg);
        let ghost gt = tree;
        update_forces_tree(bodies, &tree, cfg);
        proof {
            assert(bodies@ =~= spec_tree_forces_phase(gt, before, *cfg));
        }
        match integrate(bodies, cfg) {
            Some(id) => {
                proof {
                    assert(spec_is_step_tree(gt, before, *cfg));
                    assert(!spec_tree_step_ok(gt, before, *cfg));
                    assert(id == spec_integrate_fault_id(
                        spec_tree_forces_phase(gt, before, *cfg),
                        *cfg,
                    ));
                    if cfg.theta_num == 0 {
                        assert(!spec_step_ok(before, *cfg));
                        if spec_run_ok(s0, *cfg, steps as int) {
                            lemma_run_ok_mono(s0, *cfg, s as int + 1, steps as int);
                        }
                    }
                }
                return Err(SimFault { body_id: id, step: s });
            },
            None => {},
        }
        merge_connected(bodies, cfg);
        proof {
            assert(spec_is_step_tree(gt, before, *cfg));
            assert(spec_tree_step_ok(gt, before, *cfg));
            assert(bodies@ == spec_tree_step(gt, before, *cfg));
            assert(spec_tree_run(s0, bodies@, *cfg, s as int + 1));
            if cfg.theta_num == 0 {
                assert(bodies@ == spec_step(before, *cfg));
                assert(bodies@ == spec_run(s0, *cfg, s as int + 1));
            }
        }
        s = s + 1;
    }
    Ok(())
}

/// Merge correctness for a converged pair: a population of exactly two
/// bodies within the merge threshold is consolidated into exactly one body
/// — the merge product with the damped summed mass and the mass-weighted
/// average position and velocity — and both consumed ids are absent from
/// the post-merge population.
pub proof fn lemma_merge_pair(b1: Body, b2: Body, cfg: SimConfig)
    requires
        b1.valid(),
        b2.valid(),
        cfg.valid(),
        spec_close(b1, b2, cfg),
        b1.mass + b2.mass >= 1,
        b1.id > i64::MIN + 1,
        b2.id > i64::MIN + 1,
    ensures
        spec_merge_result(seq![b1, b2], cfg) =~= seq![
            spec_merged(b1, b2, cfg, spec_fresh_base(seq![b1, b2])),
        ],
{
    let s = seq![b1, b2];
    lemma_min_id_le(s, 2);
    assert(spec_min_id_to(s, 1) >= i64::MIN + 2) by {
        assert(spec_min_id_to(s, 0) == 0);
    }
    assert(spec_min_id_to(s, 2) >= i64::MIN + 2);
    let base = spec_fresh_base(s);
    assert(base > i64::MIN);
    let c0 = Seq::<i64>::empty();
    let m0 = Seq::<Body>::empty();
    let c1 = c0.push(b1.id).push(b2.id);
    let m1 = m0.push(spec_merged(b1, b2, cfg, base));
    assert(!c0.contains(s[0].id));
    assert(!c0.contains(s[1].id));
    let next1 = (base - 1) as i64;
    assert(spec_merge_scan(s, cfg, 0, 1, base, c0, m0) == spec_merge_scan(
        s,
        cfg,
        0,
        2,
        next1,
        c1,
        m1,
    ));
    assert(spec_merge_scan(s, cfg, 0, 2, next1, c1, m1) == spec_merge_scan(
        s,
        cfg,
        1,
        2,
        next1,
        c1,
        m1,
    ));
    assert(spec_merge_scan(s, cfg, 1, 2, next1, c1, m1) == spec_merge_scan(
        s,
        cfg,
        2,
        3,
        next1,
        c1,
        m1,
    ));
    assert(spec_merge_scan(s, cfg, 2, 3, next1, c1, m1) == (c1, m1));
    assert(c1[0] == b1.id);
    assert(c1[1] == b2.id);
    assert(c1.contains(s[0].id));
    assert(c1.contains(s[1].id));
    assert(spec_survivors_to(s, c1, 0) =~= Seq::<Body>::empty());
    assert(spec_survivors_to(s, c1, 1) =~= Seq::<Body>::empty());
    assert(spec_survivors_to(s, c1, 2) =~= Seq::<Body>::empty());
    assert(spec_merge_result(s, cfg) =~= m1);
}

} // verus!
