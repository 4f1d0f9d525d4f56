//! A Kademlia-style routing table: peers indexed by XOR distance from a
//! local identifier, with bounded buckets and nearest-peer queries.

pub mod id;
pub mod table;
