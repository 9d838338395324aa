//! Point-lookup detail resolution: a node or edge record resolved against
//! the type and string tables into a plain descriptor.
//!
//! Resolution never fails: a reference that does not hit its table
//! degrades to an empty name, so one corrupted reference cannot abort a
//! query.

use vstd::prelude::*;

use crate::tables::{Edge, Node, SnapshotStore};

verus! {

/// A resolved node descriptor.
pub struct NodeDetail {
    pub id: u32,
    /// Resolved display name; empty when the name reference is out of
    /// range.
    pub name: Vec<u8>,
    /// Resolved type name; empty when the type reference is out of range.
    pub node_type_name: Vec<u8>,
    pub self_size: u32,
    pub edge_count: u32,
}

/// A resolved edge descriptor.
pub struct EdgeDetail {
    /// Position of the edge in the flattened edge table.
    pub edge_index: usize,
    /// Resolved type name; empty when the type reference is out of range.
    pub edge_type_name: Vec<u8>,
    /// The raw name-or-index field: a string-table index for named edges,
    /// a plain number for indexed edges.
    pub name_or_index: u32,
    /// The string the name-or-index field denotes when it is a valid
    /// string-table index; empty otherwise.
    pub resolved_name: Vec<u8>,
    pub to_node_index: u32,
}

impl SnapshotStore {
    /// Resolve a node record into a descriptor.
    pub fn node_detail(&self, node: Node) -> (d: NodeDetail)
        ensures
            d.id == node.id,
            d.self_size == node.self_size,
            d.edge_count == node.edge_count,
            d.name@ == if (node.name_ref as int) < self.strings@.len() {
                self.strings@[node.name_ref as int]@
            } else {
                Seq::<u8>::empty()
            },
            d.node_type_name@ == if (node.node_type as int) < self.node_types@.len() {
                self.node_types@[node.node_type as int]@
            } else {
                Seq::<u8>::empty()
            },
    {
        NodeDetail {
            id: node.id,
            name: self.resolve_string(node.name_ref as usize),
            node_type_name: self.resolve_node_type(node.node_type as usize),
            self_size: node.self_size,
            edge_count: node.edge_count,
        }
    }

    /// Resolve an edge record (at position `edge_index`) into a
    /// descriptor.
    pub fn edge_detail(&self, edge_index: usize, edge: Edge) -> (d: EdgeDetail)
        ensures
            d.edge_index == edge_index,
            d.name_or_index == edge.name_or_index_ref,
            d.to_node_index == edge.to_node_index,
            d.edge_type_name@ == if (edge.edge_type as int) < self.edge_types@.len() {
                self.edge_types@[edge.edge_type as int]@
            } else {
                Seq::<u8>::empty()
            },
            d.resolved_name@ == if (edge.name_or_index_ref as int) < self.strings@.len() {
                self.strings@[edge.name_or_index_ref as int]@
            } else {
                Seq::<u8>::empty()
            },
    {
        EdgeDetail {
            edge_index,
            edge_type_name: self.resolve_edge_type(edge.edge_type as usize),
            name_or_index: edge.name_or_index_ref,
            resolved_name: self.resolve_string(edge.name_or_index_ref as usize),
            to_node_index: edge.to_node_index,
        }
    }
}

} // verus!
