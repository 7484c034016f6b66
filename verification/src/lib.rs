//! Peer-routing core for a peer-to-peer node: a bounded, distance-organized
//! table of known peer contacts that answers "which known peers are nearest
//! to identifier X" queries.

pub mod contact;
pub mod bucket;
pub mod routing_table;
pub mod commands;
