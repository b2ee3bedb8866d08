//! Simulation core for autonomous travel across a galaxy of solar systems.
//!
//! Solar systems are linked by paired gates; a precomputed route table gives
//! the shortest hop sequence between any two connected systems; ships follow
//! routes leg by leg, transiting gates after a spool-up delay, and cover long
//! in-system distances with a three-phase warp drive whose kinematics are
//! integrated exactly over integer coordinates.

pub mod galaxy;
pub mod gates;
pub mod map;
pub mod rng;
pub mod route;
pub mod warp;
