//! Adaptive quadtree refinement of a rectangular domain in fixed-point
//! coordinates.
pub mod geometry;
pub mod scaling;
pub mod cell;
pub mod tree;
pub mod policy;
pub mod oracle;
pub mod evolution;
pub mod config;
pub mod output;
