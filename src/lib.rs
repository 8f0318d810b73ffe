//! Street-network coverage and station placement for transit planning.
//!
//! Points live on a planar metric grid (one unit is one meter after the
//! caller projects longitude/latitude), so every distance is an exact integer.
pub mod geometry;
pub mod layers;
pub mod graph;
pub mod coverage;
pub mod station;
pub mod roads;
pub mod acquire;
pub mod service;
