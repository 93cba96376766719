//! A small network-topology library: typed devices with V4/V6 addresses, a
//! name-keyed device registry, a symmetric connection graph built from
//! one-directional declared edges, and structural queries over them
//! (direct neighbours, address-family filter, depth-first reachability,
//! and device removal with graph repair).

pub mod device;
pub mod graph;
pub mod query;
pub mod registry;
pub mod strutil;
