//! Mesh routing engine for a constellation of mobile network nodes
//! (satellites, ground stations, relays).
//!
//! The engine discovers which nodes can currently reach each other from
//! their positions, prices every link with a multi-factor cost model,
//! computes on-demand shortest paths, maintains a precomputed
//! distance-vector table used as a reliability signal, forwards packets
//! with TTL-based loop protection, and selects ground stations for
//! satellite handover.
//!
//! All quantities are held as scaled integers: angles in millidegrees,
//! lengths in metres, battery / reliability / link quality in
//! thousandths, delays in nanoseconds.

pub mod clock;
pub mod config;
pub mod cubesat;
pub mod forward;
pub mod geo;
pub mod handover;
pub mod mesh;
pub mod metrics;
pub mod node;
pub mod packet;
pub mod routing;
pub mod search;
pub mod security;
pub mod station;
pub mod step;
pub mod table;
pub mod telemetry;
pub mod topology;
