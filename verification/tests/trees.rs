//! Tests for the spatial mass tree and the bucket (multipole) tree.

use nbody_simulation::{Body, BoundingBox, QuadTreeNode, SimConfig, SpatialTree, VecN};
use nbody_simulation::implementations::{build_quadtree, direct_force};
use nbody_simulation::spatialtree::build_spatialtree;

fn cfg() -> SimConfig {
    SimConfig::standard()
}

fn body(id: i64, mass: i64, x: i64, y: i64) -> Body {
    Body::new(id, mass, 1, VecN::new([x, y]), VecN::new([0, 0]))
}

#[test]
fn mass_is_conserved_across_insertions() {
    let bb = BoundingBox::from(0, 1024);
    let mut t = SpatialTree::empty(bb);
    let masses = [5i64, 17, 1, 100, 9, 3];
    let mut expected = 0;
    for (k, m) in masses.iter().enumerate() {
        t.insert(VecN::new([37 * (k as i64 + 1), 113 * (k as i64 + 1)]), *m, bb);
        expected += m;
        assert_eq!(t.mass, expected);
    }
}

#[test]
fn build_tree_mass_equals_population_mass() {
    let c = cfg();
    let bodies = vec![
        body(0, 10, 100, 100),
        body(1, 20, 900, 100),
        body(2, 30, 100, 900),
        body(3, 0, 500, 500), // inert: contributes nothing
    ];
    let t = build_spatialtree(&bodies, &c);
    assert_eq!(t.mass, 60);
}

#[test]
fn nonpositive_mass_insert_leaves_tree_unchanged() {
    let bb = BoundingBox::from(0, 1024);
    let mut t = SpatialTree::empty(bb);
    t.insert(VecN::new([100, 100]), 40, bb);
    t.insert(VecN::new([800, 800]), 10, bb);
    let mass = t.mass;
    let pos = t.pos.coords;
    let leaf = t.is_leaf();
    t.insert(VecN::new([300, 300]), 0, bb);
    t.insert(VecN::new([400, 400]), -25, bb);
    assert_eq!(t.mass, mass);
    assert_eq!(t.pos.coords, pos);
    assert_eq!(t.is_leaf(), leaf);
}

#[test]
fn first_insert_becomes_the_leaf_point() {
    let bb = BoundingBox::from(0, 1024);
    let mut t = SpatialTree::empty(bb);
    t.insert(VecN::new([123, 456]), 7, bb);
    assert_eq!(t.mass, 7);
    assert_eq!(t.pos.coords, [123, 456]);
    assert!(t.is_leaf());
}

#[test]
fn two_inserts_update_center_of_mass_exactly() {
    let bb = BoundingBox::from(0, 1024);
    let mut t = SpatialTree::empty(bb);
    t.insert(VecN::new([0, 0]), 30, bb);
    t.insert(VecN::new([100, 200]), 10, bb);
    // (30*0 + 10*100) / 40 = 25 and (30*0 + 10*200) / 40 = 50
    assert_eq!(t.pos.coords, [25, 50]);
    assert_eq!(t.mass, 40);
    assert!(!t.is_leaf());
}

#[test]
fn coincident_points_merge_without_subdividing() {
    let bb = BoundingBox::from(0, 1024);
    let mut t = SpatialTree::empty(bb);
    t.insert(VecN::new([512, 512]), 5, bb);
    t.insert(VecN::new([512, 512]), 15, bb);
    assert_eq!(t.mass, 20);
    assert_eq!(t.pos.coords, [512, 512]);
    assert!(t.is_leaf());
}

#[test]
fn spatial_tree_force_matches_two_body_formula() {
    let c = cfg();
    let bb = BoundingBox::from(0, 1024);
    let mut t = SpatialTree::empty(bb);
    t.insert(VecN::new([100, 0]), 1000, bb);
    let probe = Body::new(7, 10, 1, VecN::new([0, 0]), VecN::new([0, 0]));
    let f = t.compute_force(&probe, &c);
    // fmag = g*m1*m2/(d2+soft) = 1*10*1000/(10000+1) = 0 at these magnitudes
    assert_eq!(f.coords, [0, 0]);
    // with a heavier source the pull is measurable and points toward it
    let mut t2 = SpatialTree::empty(bb);
    t2.insert(VecN::new([100, 0]), 1_000_000, bb);
    let f2 = t2.compute_force(&probe, &c);
    // fmag = 10_000_000 / 10_001 = 999; f = 999 * 100 / 100 = 999
    assert_eq!(f2.coords, [999, 0]);
}

#[test]
fn bucket_tree_subdivides_over_capacity() {
    let c = cfg();
    let bodies = vec![
        body(0, 10, 100, 100),
        body(1, 10, 200, 100),
        body(2, 10, 300, 100),
        body(3, 10, 400, 100),
        body(4, 10, 900, 900),
    ];
    let t = build_quadtree(&bodies, &c);
    assert_eq!(t.children.len(), 4);
    assert_eq!(t.bodies.len(), 0);
    assert_eq!(t.mass, 50);
}

#[test]
fn multipole_expansion_is_exact_weighted_centroid() {
    let c = cfg();
    let bodies = vec![body(0, 30, 0, 0), body(1, 10, 100, 200)];
    let t = build_quadtree(&bodies, &c);
    assert_eq!(t.mass, 40);
    // (30*0 + 10*100)/40 = 25, (30*0 + 10*200)/40 = 50
    assert_eq!(t.multipole_expansion.coords, [25, 50]);
}

#[test]
fn clear_empties_the_tree() {
    let c = cfg();
    let bodies = vec![body(0, 10, 100, 100), body(1, 20, 900, 900)];
    let mut t = build_quadtree(&bodies, &c);
    t.clear();
    assert_eq!(t.children.len(), 0);
    assert_eq!(t.bodies.len(), 0);
}

#[test]
fn theta_zero_evaluation_equals_direct_sum() {
    let mut c = cfg();
    c.theta_num = 0;
    c.g = 1000;
    let bodies = vec![
        body(0, 1000, 10, 20),
        body(1, 2000, 500, 40),
        body(2, 1500, 300, 800),
        body(3, 800, 900, 900),
        body(4, 50, 600, 600),
        body(5, 4000, 50, 1000),
    ];
    let t = build_quadtree(&bodies, &c);
    for k in 0..bodies.len() {
        let exact = direct_force(&bodies, k, &c);
        let tree = t.evaluate_force(&bodies[k], &c);
        assert_eq!(tree.coords, exact.coords);
    }
}

#[test]
fn aggressive_theta_approximates() {
    // with theta = 1 far nodes are approximated by their aggregates; the
    // result differs from the exact sum but stays close in relative terms
    let mut c = cfg();
    c.g = 1_000_000;
    c.theta_num = 1;
    c.theta_den = 1;
    c.max_dist = 10_000;
    let mut bodies = Vec::new();
    let mut rng = nbody_simulation::Rng::new(12345);
    for id in 0..40i64 {
        let x = rng.range(0, 10_000) as i64;
        let y = rng.range(0, 10_000) as i64;
        bodies.push(body(id, 20_000 + (id % 7) * 13, x, y));
    }
    let t = build_quadtree(&bodies, &c);
    let mut diverged = false;
    for k in 0..bodies.len() {
        let exact = direct_force(&bodies, k, &c);
        let tree = t.evaluate_force(&bodies[k], &c);
        if tree.coords != exact.coords {
            diverged = true;
        }
    }
    assert!(diverged);
}

#[test]
fn quadtree_quadrants_follow_the_center() {
    let n = QuadTreeNode::new(VecN::new([500, 500]), 1000);
    assert_eq!(n.get_quadrant(&VecN::new([100, 100])), 0);
    assert_eq!(n.get_quadrant(&VecN::new([600, 100])), 1);
    assert_eq!(n.get_quadrant(&VecN::new([100, 600])), 2);
    assert_eq!(n.get_quadrant(&VecN::new([600, 600])), 3);
}
