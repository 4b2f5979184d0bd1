//! Rack discovery and placement-map synthesis for a storage cluster.
//!
//! Hosts probe each other at layer 2, the per-host neighbour sets are grouped into racks,
//! and a placement map with one bucket per rack and a root bucket is built from the map
//! that the cluster runs now.
pub mod cluster;
pub mod discovery;
pub mod order;
pub mod probe;
pub mod topology;
pub mod unit;
pub mod synth;
