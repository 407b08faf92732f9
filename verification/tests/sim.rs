//! Tests for the merge pass and whole-simulation scenarios.

use nbody_simulation::{Body, Rng, SimConfig, VecN};
use nbody_simulation::implementations::{build_quadtree, direct_force, merge_connected, naive};

fn cfg() -> SimConfig {
    SimConfig::standard()
}

fn body(id: i64, mass: i64, x: i64, y: i64) -> Body {
    Body::new(id, mass, 1, VecN::new([x, y]), VecN::new([0, 0]))
}

#[test]
fn merge_pair_produces_exactly_one_damped_body() {
    let mut c = cfg();
    c.merge_threshold = 10;
    let mut a = body(3, 30, 100, 100);
    a.vel = VecN::new([40, 0]);
    let mut b = body(4, 10, 104, 103);
    b.vel = VecN::new([0, -80]);
    let mut bodies = vec![a, b];
    merge_connected(&mut bodies, &c);
    assert_eq!(bodies.len(), 1);
    let m = bodies[0];
    // mass = (30 + 10) * 3 / 5
    assert_eq!(m.mass, 24);
    // position and velocity are the mass-weighted averages
    assert_eq!(m.pos.coords, [(30 * 100 + 10 * 104) / 40, (30 * 100 + 10 * 103) / 40]);
    assert_eq!(m.vel.coords, [(30 * 40) / 40, (10 * -80) / 40]);
    // a fresh negative id, below every pre-merge id, marks the product;
    // both consumed ids are gone
    assert_eq!(m.id, -1);
    assert!(bodies.iter().all(|x| x.id != 3 && x.id != 4));
}

#[test]
fn distant_bodies_do_not_merge() {
    let mut c = cfg();
    c.merge_threshold = 10;
    let mut bodies = vec![body(0, 30, 100, 100), body(1, 10, 200, 200)];
    merge_connected(&mut bodies, &c);
    assert_eq!(bodies.len(), 2);
    assert_eq!(bodies[0].id, 0);
    assert_eq!(bodies[1].id, 1);
}

#[test]
fn merge_threshold_is_strict() {
    let mut c = cfg();
    c.merge_threshold = 5;
    // distance exactly 5: squared distance 25 is not below 25
    let mut bodies = vec![body(0, 30, 100, 100), body(1, 10, 103, 104)];
    merge_connected(&mut bodies, &c);
    assert_eq!(bodies.len(), 2);
}

#[test]
fn merge_is_single_pass_greedy_not_transitive() {
    let mut c = cfg();
    c.merge_threshold = 10;
    // three mutually close bodies: the pass consumes the pair (0, 1) first
    // and then skips every pair touching a consumed id
    let mut bodies = vec![body(0, 10, 100, 100), body(1, 10, 102, 100), body(2, 10, 104, 100)];
    merge_connected(&mut bodies, &c);
    assert_eq!(bodies.len(), 2);
    // body 2 survives untouched; the product replaces 0 and 1 under a
    // fresh id below every pre-merge id
    assert_eq!(bodies[0].id, 2);
    assert_eq!(bodies[1].id, -1);
    assert_eq!(bodies[1].mass, 12);
}

#[test]
fn same_position_bodies_merge_in_one_pass() {
    // two bodies initialized at the same position with zero velocity are
    // consolidated by the next merge pass into one body with summed,
    // damped mass
    let c = cfg();
    let mut bodies = vec![body(5, 100, 300, 300), body(6, 60, 300, 300)];
    merge_connected(&mut bodies, &c);
    assert_eq!(bodies.len(), 1);
    assert_eq!(bodies[0].mass, (100 + 60) * 3 / 5);
    assert_eq!(bodies[0].vel.coords, [0, 0]);
    assert_eq!(bodies[0].pos.coords, [300, 300]);
    assert!(bodies.iter().all(|x| x.id != 5 && x.id != 6));
}

#[test]
fn same_position_bodies_merge_during_a_simulation_step() {
    let mut c = cfg();
    c.merge_threshold = 2;
    let mut bodies = vec![body(5, 100, 300, 300), body(6, 60, 300, 300)];
    let r = naive(&mut bodies, 1, &c);
    assert!(r.is_ok());
    assert_eq!(bodies.len(), 1);
    assert_eq!(bodies[0].mass, 96);
}

#[test]
fn collinear_equal_masses_cancel_on_the_middle_body() {
    // three collinear equal masses, symmetric spacing, evaluated exactly:
    // the net force on the middle body is exactly zero
    let mut c = cfg();
    c.theta_num = 0;
    c.g = 1000;
    let bodies = vec![
        body(0, 5000, 100, 500),
        body(1, 5000, 500, 500),
        body(2, 5000, 900, 500),
    ];
    let exact = direct_force(&bodies, 1, &c);
    assert_eq!(exact.coords, [0, 0]);
    let t = build_quadtree(&bodies, &c);
    let tree = t.evaluate_force(&bodies[1], &c);
    assert_eq!(tree.coords, [0, 0]);
}

#[test]
fn circular_orbit_returns_to_start() {
    // a heavy central mass and a light test mass at distance r with the
    // circular-orbit speed v = sqrt(g*M/r); after one full period the
    // test mass is back near its starting position
    let c = SimConfig {
        g: 1_000_000,
        softening_sq: 1,
        dt_num: 1,
        dt_den: 20,
        theta_num: 1,
        theta_den: 2,
        merge_threshold: 0,
        damping_num: 3,
        damping_den: 5,
        max_dist: 100_000,
    };
    let central = body(0, 1_000_000, 0, 0);
    let r = 10_000i64;
    let v = ((c.g as f64 * central.mass as f64) / r as f64).sqrt().round() as i64;
    assert_eq!(v, 10_000);
    let mut probe = body(1, 1000, r, 0);
    probe.vel = VecN::new([0, v]);
    let mut bodies = vec![central, probe];
    // period = 2*pi*r/v time units = 6.28... = 125.66 steps of dt = 1/20
    let steps = ((2.0 * std::f64::consts::PI * r as f64 / v as f64) * 20.0).round() as usize;
    assert_eq!(steps, 126);
    let res = naive(&mut bodies, steps, &c);
    assert!(res.is_ok());
    assert_eq!(bodies.len(), 2);
    let end = bodies.iter().find(|b| b.id == 1).unwrap();
    let dx = (end.pos.coords[0] - r) as f64;
    let dy = end.pos.coords[1] as f64;
    let drift = (dx * dx + dy * dy).sqrt();
    assert!(drift < 0.05 * r as f64, "drift {} out of tolerance", drift);
}

#[test]
fn tree_forces_track_direct_forces_at_small_theta() {
    // a fixed-seed 100-body system: the bucket-tree forces at theta = 1/10
    // match the direct pairwise forces within a small relative error
    let c = SimConfig {
        g: 1000,
        softening_sq: 1,
        dt_num: 1,
        dt_den: 100,
        theta_num: 1,
        theta_den: 10,
        merge_threshold: 1,
        damping_num: 3,
        damping_den: 5,
        max_dist: 1_000_000,
    };
    let mut rng = Rng::new(20260101);
    let mut bodies = Vec::new();
    for id in 0..100i64 {
        let x = rng.range(0, 1_000_000) as i64;
        let y = rng.range(0, 1_000_000) as i64;
        let m = rng.range(1000, 10_000) as i64;
        bodies.push(body(id, m, x, y));
    }
    let t = build_quadtree(&bodies, &c);
    for k in 0..bodies.len() {
        let exact = direct_force(&bodies, k, &c);
        let tree = t.evaluate_force(&bodies[k], &c);
        for i in 0..2 {
            let e = exact.coords[i] as f64;
            let a = tree.coords[i] as f64;
            let scale = e.abs().max(1000.0);
            assert!(
                ((a - e) / scale).abs() < 1e-4,
                "component {} of body {}: tree {} vs direct {}",
                i,
                k,
                a,
                e
            );
        }
    }
}

#[test]
fn ten_steps_direct_and_tree_agree_at_theta_zero() {
    // with theta zero the tree-based run is the direct run, exactly
    let mut c = cfg();
    c.theta_num = 0;
    c.g = 1000;
    c.merge_threshold = 2;
    let mut rng = Rng::new(777);
    let mut a = Vec::new();
    for id in 0..30i64 {
        let x = rng.range(0, 1000) as i64;
        let y = rng.range(0, 1000) as i64;
        let m = rng.range(100, 2000) as i64;
        a.push(body(id, m, x, y));
    }
    let mut b = a.clone();
    let ra = naive(&mut a, 10, &c);
    let rb = nbody_simulation::implementations::fmm(&mut b, 10, &c);
    assert_eq!(ra.is_ok(), rb.is_ok());
    assert_eq!(a.len(), b.len());
    for k in 0..a.len() {
        assert_eq!(a[k].id, b[k].id);
        assert_eq!(a[k].mass, b[k].mass);
        assert_eq!(a[k].pos.coords, b[k].pos.coords);
        assert_eq!(a[k].vel.coords, b[k].vel.coords);
    }
}

#[test]
fn runaway_forces_stop_the_run_with_a_fault() {
    // two huge masses one unit apart: the first velocity update leaves the
    // representable range and the run stops, identifying body and step
    let mut c = cfg();
    c.g = 1_000_000;
    let mut bodies = vec![body(0, 500_000, 500, 500), body(1, 500_000, 501, 500)];
    let r = naive(&mut bodies, 3, &c);
    assert_eq!(
        r,
        Err(nbody_simulation::SimFault { body_id: 0, step: 0 })
    );
}

#[test]
fn xorshift_step_is_exact() {
    let seed = 0x1234_5678_9ABC_DEF0u64;
    let mut r = Rng::new(seed);
    let _ = r.rand();
    let mut expect = seed;
    expect ^= expect << 13;
    expect ^= expect >> 17;
    expect ^= expect << 43;
    assert_eq!(r.rand(), expect);
}

#[test]
fn empty_population_steps_without_effect() {
    let c = cfg();
    let mut bodies: Vec<Body> = Vec::new();
    assert!(naive(&mut bodies, 3, &c).is_ok());
    assert!(bodies.is_empty());
    merge_connected(&mut bodies, &c);
    assert!(bodies.is_empty());
}

#[test]
fn single_body_feels_no_force() {
    let mut c = cfg();
    c.g = 1_000_000;
    let mut bodies = vec![body(0, 1000, 500, 500)];
    assert!(naive(&mut bodies, 5, &c).is_ok());
    assert_eq!(bodies.len(), 1);
    assert_eq!(bodies[0].pos.coords, [500, 500]);
    assert_eq!(bodies[0].vel.coords, [0, 0]);
    assert_eq!(bodies[0].force.coords, [0, 0]);
}

#[test]
fn consumed_ids_never_reappear_across_passes() {
    // products always take ids strictly below every id of the pass they
    // were created in, so retired ids cannot come back later
    let mut c = cfg();
    c.merge_threshold = 10;
    let mut bodies = vec![body(0, 30, 100, 100), body(1, 30, 102, 100), body(2, 30, 500, 500)];
    merge_connected(&mut bodies, &c);
    assert_eq!(bodies.len(), 2);
    assert_eq!(bodies[1].id, -1);
    // bring the product next to the remaining body and merge again
    bodies[1].pos = VecN::new([503, 500]);
    merge_connected(&mut bodies, &c);
    assert_eq!(bodies.len(), 1);
    // the second product's id is below the previous minimum (-1)
    assert_eq!(bodies[0].id, -2);
    assert!(bodies[0].id != 0 && bodies[0].id != 1 && bodies[0].id != 2 && bodies[0].id != -1);
}

#[test]
fn massless_bodies_are_not_stored_by_the_bucket_tree() {
    // inserting a zero-mass body leaves the bucket tree bit-for-bit
    // unchanged (negative masses are outside the bodies the core accepts)
    let c = cfg();
    let mut t = build_quadtree(&vec![body(0, 10, 100, 100), body(1, 20, 900, 900)], &c);
    let before_bodies = t.bodies.len();
    let before_children = t.children.len();
    let before_mass = t.mass;
    t.insert(body(9, 0, 500, 500));
    assert_eq!(t.bodies.len(), before_bodies);
    assert_eq!(t.children.len(), before_children);
    assert_eq!(t.mass, before_mass);
}
