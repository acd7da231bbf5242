//! A routable road network extracted from raw map records, with
//! shortest-path queries under a distance metric or a travel-time metric.
//!
//! Geometry is carried in integer units throughout: coordinates in
//! 1e-7 degree steps, distances in millimeters, travel times in
//! milliseconds, speeds in km/h. The floating-point great-circle
//! formulas that measure leg lengths live outside this crate; the
//! records handed to the builder carry the measured lengths.

pub mod cli;
pub mod dijkstra;
pub mod elements;
pub mod graphe;
pub mod location;
pub mod reader;
pub mod table;
