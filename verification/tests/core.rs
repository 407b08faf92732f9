//! Tests for the vector, bounding-box, RNG and body primitives.

use nbody_simulation::{Body, BoundingBox, Rng, SimConfig, VecN};
use nbody_simulation::consts::{COORD_LIMIT, DT_DEN, DT_NUM, MAX_DIST};

fn cfg() -> SimConfig {
    SimConfig::standard()
}

#[test]
fn rng_is_deterministic() {
    let mut a = Rng::new(0xDEAD_BEEF);
    let mut b = Rng::new(0xDEAD_BEEF);
    for _ in 0..32 {
        assert_eq!(a.rand(), b.rand());
    }
}

#[test]
fn rng_first_draw_returns_seed() {
    let mut r = Rng::new(42);
    assert_eq!(r.rand(), 42);
}

#[test]
fn rng_range_stays_in_bounds() {
    let mut r = Rng::new(987_654_321);
    for _ in 0..100 {
        let v = r.range(10, 20);
        assert!((10..=20).contains(&v));
    }
}

#[test]
fn vector_new_and_from() {
    let v = VecN::new([3, -4]);
    assert_eq!(v.coords, [3, -4]);
    let w = VecN::from(7);
    assert_eq!(w.coords, [7, 7]);
}

#[test]
fn vector_arithmetic() {
    let a = VecN::new([3, -4]);
    let b = VecN::new([10, 2]);
    assert_eq!(a.add(&b).coords, [13, -2]);
    assert_eq!(a.sub(&b).coords, [-7, -6]);
    assert_eq!(a.scale(-2).coords, [-6, 8]);
    assert_eq!(VecN::new([-7, 9]).div_scalar(2).coords, [-3, 4]);
}

#[test]
fn vector_magnitude_and_distance() {
    let v = VecN::new([3, 4]);
    assert_eq!(v.magnitude(), 5);
    let w = VecN::new([0, 0]);
    assert_eq!(v.distance(&w), 5);
    assert_eq!(v.dist2(&w), 25);
    // the integer square root truncates
    assert_eq!(VecN::new([1, 1]).magnitude(), 1);
}

#[test]
fn vector_normalize() {
    let mut v = VecN::new([30, 40]);
    v.normalize();
    assert_eq!(v.coords, [0, 0]); // 30/50 and 40/50 truncate to zero
    let mut w = VecN::new([100, 0]);
    w.normalize();
    assert_eq!(w.coords, [1, 0]);
    let mut z = VecN::new([0, 0]);
    z.normalize();
    assert_eq!(z.coords, [0, 0]);
}

#[test]
fn vector_clear_limit_and_nan_check() {
    let mut v = VecN::new([55, -99]);
    v.clear();
    assert_eq!(v.coords, [0, 0]);
    let mut w = VecN::new([500, -500]);
    w.limit(100);
    assert_eq!(w.coords, [100, -100]);
    assert!(!VecN::new([COORD_LIMIT, -COORD_LIMIT]).is_nan());
    assert!(VecN::new([COORD_LIMIT + 1, 0]).is_nan());
}

#[test]
fn bounding_box_center_and_diff() {
    let bb = BoundingBox::from(0, MAX_DIST);
    assert_eq!(bb.center(0), MAX_DIST / 2);
    assert_eq!(bb.center(1), MAX_DIST / 2);
    assert_eq!(bb.diff(0), MAX_DIST);
}

#[test]
fn bounding_box_quadrants() {
    let bb = BoundingBox::from(0, 1000);
    assert_eq!(bb.quadrant(&VecN::new([100, 100])), 0);
    assert_eq!(bb.quadrant(&VecN::new([600, 100])), 1);
    assert_eq!(bb.quadrant(&VecN::new([100, 600])), 2);
    assert_eq!(bb.quadrant(&VecN::new([600, 600])), 3);
}

#[test]
fn bounding_box_child_regions() {
    let bb = BoundingBox::from(0, 1000);
    let c0 = bb.child(0);
    assert_eq!(c0.min.coords, [0, 0]);
    assert_eq!(c0.max.coords, [500, 500]);
    let c3 = bb.child(3);
    assert_eq!(c3.min.coords, [500, 500]);
    assert_eq!(c3.max.coords, [1000, 1000]);
}

#[test]
fn quadrant_child_keeps_the_point() {
    // a point inside a box is inside the child derived for its own octant
    let bb = BoundingBox::from(-37, 1013);
    let points = [[0i64, 0], [-37, 1013], [488, 488], [489, 489], [1013, -37 + 1050]];
    for p in points {
        let pos = VecN::new(p);
        assert!(bb.contains(&pos));
        let child = bb.child(bb.quadrant(&pos));
        assert!(child.contains(&pos));
    }
}

#[test]
fn body_velocity_update_is_exact() {
    let c = cfg();
    assert_eq!(DT_NUM, 1);
    assert_eq!(DT_DEN, 100);
    let mut b = Body::new(1, 10, 1, VecN::new([0, 0]), VecN::new([5, -5]));
    b.force = VecN::new([2000, -3000]);
    assert!(b.update_velocity(&c));
    // dv = force * dt / mass = (2000 / 10) / 100 = 2 and -3
    assert_eq!(b.vel.coords, [7, -8]);
    assert_eq!(b.pos.coords, [0, 0]);
}

#[test]
fn body_position_update_is_exact() {
    let c = cfg();
    let mut b = Body::new(1, 10, 1, VecN::new([100, 200]), VecN::new([250, -350]));
    assert!(b.update_position(&c));
    // dx = vel * dt = 250/100 and -350/100, rounding toward zero
    assert_eq!(b.pos.coords, [102, 197]);
}

#[test]
fn body_update_reports_divergence() {
    let c = cfg();
    let mut b = Body::new(1, 1, 1, VecN::new([0, 0]), VecN::new([COORD_LIMIT, 0]));
    b.force = VecN::new([1_000_000_000, 0]);
    // the new velocity would leave the representable range
    assert!(!b.update_velocity(&c));
    assert_eq!(b.vel.coords, [COORD_LIMIT, 0]);
}

#[test]
fn massless_body_is_inert() {
    let c = cfg();
    let mut b = Body::new(1, 0, 1, VecN::new([0, 0]), VecN::new([5, 5]));
    b.force = VecN::new([1000, 1000]);
    assert!(b.update_velocity(&c));
    assert_eq!(b.vel.coords, [5, 5]);
}
