//! Decode-and-query engine for memory heap snapshots.
//!
//! A snapshot is a dense binary dump of an object graph: nodes, directed
//! edges, and an interned string table. The engine decodes a complete byte
//! buffer into flat, index-linked tables and answers graph queries over
//! them: node filtering, reachable-subgraph extraction, point lookups of
//! node and edge detail, and detection of duplicated string content.

pub mod analysis;
pub mod bytes;
pub mod decode;
pub mod detail;
pub mod laws;
pub mod query;
pub mod reach;
pub mod tables;
