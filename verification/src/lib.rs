//! Peer-to-peer routing: signed edges between peers, the overlay graph and its
//! next-hop tables, the route-back cache, the routing table view and the peer
//! address book.

pub mod announce;
pub mod bytes;
pub mod crypto;
pub mod edge;
pub mod edge_codec;
pub mod graph;
pub mod ibf;
pub mod keys;
pub mod lru;
pub mod peer_store;
pub mod peer_types;
pub mod round_robin;
pub mod route_back;
pub mod routing_table;
pub mod sampling;
pub mod shortest;
pub mod store_config;
pub mod vec_map;
