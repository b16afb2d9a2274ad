//! Verified integer core of the orientation and support-generation toolkit.

pub mod rng;
pub mod island;
pub mod placement;
pub mod types;
pub mod edges;
pub mod analysis;
pub mod adjacency;
pub mod repair;
pub mod holes;
pub mod flat;
pub mod winding;
pub mod selection;
pub mod decimate;
pub mod raft;
pub mod hull;
pub mod stl;
