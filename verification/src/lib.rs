//! An N-body gravity simulator built around a Barnes-Hut spatial tree.
//!
//! All simulation quantities (positions, velocities, masses, forces) are
//! integers in caller-chosen units; every arithmetic step is exact and
//! stated in the contracts, so the physics of the core is fully specified.

pub mod arith;
pub mod body;
pub mod boundingbox;
pub mod config;
pub mod consts;
pub mod force;
pub mod implementations;
pub mod quadtree;
pub mod rng;
pub mod spatialtree;
pub mod vector;

pub use body::Body;
pub use boundingbox::BoundingBox;
pub use config::SimConfig;
pub use implementations::{fmm, naive, merge_connected, SimFault};
pub use quadtree::QuadTreeNode;
pub use rng::Rng;
pub use spatialtree::SpatialTree;
pub use vector::VecN;
