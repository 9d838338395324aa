//! The snapshot analysis engine: a staging buffer plus the currently
//! decoded store, with the query surface offered to the host.
//!
//! The host stages raw bytes (one at a time or in bulk), triggers a
//! decode, and then issues queries. A failed decode leaves the previously
//! decoded store (or the initial empty store) untouched, so queries never
//! see a half-built table.

use vstd::prelude::*;

use crate::decode::{DecodeError, decode, spec_decode};
use crate::detail::{EdgeDetail, NodeDetail};
use crate::query::{FilterCondition, SameStringCondition, filter_nodes, is_duplicate_root,
    node_matches, node_name, node_type_name_of, same_string_roots};
use crate::reach::{children_graph, is_path, reachable_from, subgraph_edge};
use crate::tables::SnapshotStore;

verus! {

/// A query result: the node-table and edge-table positions of an induced
/// reachable subgraph.
pub struct Subgraph {
    pub node_indexes: Vec<usize>,
    pub edge_indexes: Vec<usize>,
}

/// Node `b` is reachable from some node matching the filter condition.
pub open spec fn reachable_matching(s: SnapshotStore, c: FilterCondition, b: int) -> bool {
    exists|p: Seq<int>| #[trigger] is_path(s, p) && node_matches(s, p[0], c) && p.last() == b
}

/// Node `b` is reachable from some duplicate-string root node.
pub open spec fn reachable_duplicates(s: SnapshotStore, c: SameStringCondition, b: int) -> bool {
    exists|p: Seq<int>| #[trigger] is_path(s, p) && is_duplicate_root(s, c, p[0]) && p.last() == b
}

/// Reachability from a concrete root sequence coincides with
/// reachability from the nodes matching a filter condition, whenever the
/// sequence holds exactly those nodes.
proof fn lemma_reach_equiv_filter(s: SnapshotStore, roots: Seq<usize>, c: FilterCondition, b: int)
    requires
        s.nodes@.len() <= usize::MAX,
        forall|k: int|
            0 <= k < roots.len() ==> (#[trigger] roots[k] as int) < s.nodes@.len() && node_matches(
                s, roots[k] as int, c),
        forall|i: int|
            0 <= i < s.nodes@.len() && #[trigger] node_matches(s, i, c) ==> roots.contains(
                i as usize),
    ensures
        reachable_from(s, roots, b) == reachable_matching(s, c, b),
{
    if reachable_from(s, roots, b) {
        let p = choose|p: Seq<int>| #[trigger] is_path(s, p) && roots.contains(p[0] as usize)
            && p.last() == b;
        let k = choose|k: int| 0 <= k < roots.len() && roots[k] == p[0] as usize;
        assert(0 <= p[0] < s.nodes@.len());
        assert(roots[k] as int == p[0]);
        assert(node_matches(s, roots[k] as int, c));
        assert(is_path(s, p) && node_matches(s, p[0], c) && p.last() == b);
    }
    if reachable_matching(s, c, b) {
        let p = choose|p: Seq<int>| #[trigger] is_path(s, p) && node_matches(s, p[0], c)
            && p.last() == b;
        assert(0 <= p[0] < s.nodes@.len());
        assert(roots.contains(p[0] as usize));
        assert(is_path(s, p) && roots.contains(p[0] as usize) && p.last() == b);
    }
}

/// Reachability from a concrete root sequence coincides with
/// reachability from the duplicate-string roots, whenever the sequence
/// holds exactly those nodes.
proof fn lemma_reach_equiv_duplicates(
    s: SnapshotStore,
    roots: Seq<usize>,
    c: SameStringCondition,
    b: int,
)
    requires
        s.nodes@.len() <= usize::MAX,
        forall|k: int|
            0 <= k < roots.len() ==> is_duplicate_root(s, c, #[trigger] roots[k] as int),
        forall|i: int| #[trigger] is_duplicate_root(s, c, i) ==> roots.contains(i as usize),
    ensures
        reachable_from(s, roots, b) == reachable_duplicates(s, c, b),
{
    if reachable_from(s, roots, b) {
        let p = choose|p: Seq<int>| #[trigger] is_path(s, p) && roots.contains(p[0] as usize)
            && p.last() == b;
        let k = choose|k: int| 0 <= k < roots.len() && roots[k] == p[0] as usize;
        assert(0 <= p[0] < s.nodes@.len());
        assert(roots[k] as int == p[0]);
        assert(is_duplicate_root(s, c, roots[k] as int));
        assert(is_path(s, p) && is_duplicate_root(s, c, p[0]) && p.last() == b);
    }
    if reachable_duplicates(s, c, b) {
        let p = choose|p: Seq<int>| #[trigger] is_path(s, p) && is_duplicate_root(s, c, p[0])
            && p.last() == b;
        assert(0 <= p[0] < s.nodes@.len());
        assert(roots.contains(p[0] as usize));
        assert(is_path(s, p) && roots.contains(p[0] as usize) && p.last() == b);
    }
}

/// The analysis engine: a byte staging buffer and the decoded store.
pub struct SnapshotAnalysis {
    /// Raw bytes staged by the host before a decode.
    pub buffer: Vec<u8>,
    /// The currently decoded store; empty until the first successful
    /// decode.
    pub provider: SnapshotStore,
}

impl SnapshotAnalysis {
    /// The engine always holds a well-formed store.
    pub open spec fn wf(self) -> bool {
        self.provider.wf()
    }

    /// A fresh engine with a zeroed staging buffer of `byte_length` bytes
    /// and an empty store.
    pub fn new(byte_length: usize) -> (r: SnapshotAnalysis)
        ensures
            r.wf(),
            r.buffer@.len() == byte_length,
            forall|i: int| 0 <= i < byte_length ==> r.buffer@[i] == 0,
            r.provider.nodes@.len() == 0,
            r.provider.edges@.len() == 0,
            r.provider.strings@.len() == 0,
            r.provider.node_types@.len() == 0,
            r.provider.edge_types@.len() == 0,
    {
        SnapshotAnalysis { buffer: vec![0u8; byte_length], provider: SnapshotStore::empty() }
    }

    /// Stage one byte at `index` of the buffer.
    pub fn set_buffer(&mut self, index: usize, value: u8)
        requires
            index < old(self).buffer@.len(),
        ensures
            final(self).buffer@ == old(self).buffer@.update(index as int, value),
            final(self).provider == old(self).provider,
    {
        self.buffer.set(index, value);
    }

    /// Decode the staged buffer. On success the store is replaced and the
    /// staging buffer released; on failure both are left exactly as they
    /// were.
    pub fn start_parse(&mut self) -> (r: Result<(), DecodeError>)
        requires
            old(self).wf(),
        ensures
            final(self).wf(),
            r is Ok <==> spec_decode(old(self).buffer@) is Some,
            r matches Ok(u) ==> {
                &&& Some(final(self).provider.model()) == spec_decode(old(self).buffer@)
                &&& final(self).buffer@.len() == 0
            },
            r matches Err(e) ==> {
                &&& *final(self) == *old(self)
                &&& (e == DecodeError::Empty <==> old(self).buffer@.len() == 0)
            },
    {
        match decode(&self.buffer) {
            Ok(store) => {
                self.provider = store;
                self.buffer.clear();
                Ok(())
            },
            Err(e) => Err(e),
        }
    }

    /// Filter query: the subgraph reachable from every node matching the
    /// condition.
    pub fn get_graph(&self, cond: &FilterCondition) -> (r: Subgraph)
        requires
            self.wf(),
        ensures
            r.node_indexes@.no_duplicates(),
            r.edge_indexes@.no_duplicates(),
            forall|x: usize| #[trigger] r.node_indexes@.contains(x) <==> reachable_matching(
                self.provider, *cond, x as int),
            forall|e: usize| #[trigger] r.edge_indexes@.contains(e) <==> subgraph_edge(
                self.provider, r.node_indexes@, e as int),
    {
        let n = self.provider.nodes.len();
        let roots = filter_nodes(&self.provider, cond);
        let (node_indexes, edge_indexes) = children_graph(&self.provider, &roots);
        proof {
            assert forall|x: usize| #[trigger] node_indexes@.contains(x) == reachable_matching(
                self.provider, *cond, x as int) by {
                lemma_reach_equiv_filter(self.provider, roots@, *cond, x as int);
            };
        }
        Subgraph { node_indexes, edge_indexes }
    }

    /// Point lookup of a node by id: its resolved descriptor, or `None`
    /// when no node of the store carries the id.
    pub fn get_node_detail(&self, id: u32) -> (r: Option<NodeDetail>)
        requires
            self.wf(),
        ensures
            r is Some <==> exists|i: int|
                0 <= i < self.provider.nodes@.len() && (#[trigger] self.provider.nodes@[i].id)
                    == id,
            forall|i: int|
                0 <= i < self.provider.nodes@.len() && (#[trigger] self.provider.nodes@[i].id)
                    == id ==> {
                    &&& r is Some
                    &&& r.unwrap().id == id
                    &&& r.unwrap().self_size == self.provider.nodes@[i].self_size
                    &&& r.unwrap().edge_count == self.provider.nodes@[i].edge_count
                    &&& r.unwrap().name@ == node_name(self.provider, i)
                    &&& r.unwrap().node_type_name@ == node_type_name_of(self.provider, i)
                },
    {
        match self.provider.get_node(id) {
            Some(node) => Some(self.provider.node_detail(node)),
            None => None,
        }
    }

    /// Point lookup of an edge by its edge-table position: its resolved
    /// descriptor, or `None` when the position is out of range.
    pub fn get_edge_detail(&self, edge_index: usize) -> (r: Option<EdgeDetail>)
        requires
            self.wf(),
        ensures
            r is Some <==> edge_index < self.provider.edges@.len(),
            edge_index < self.provider.edges@.len() ==> {
                let edge = self.provider.edges@[edge_index as int];
                &&& r.unwrap().edge_index == edge_index
                &&& r.unwrap().name_or_index == edge.name_or_index_ref
                &&& r.unwrap().to_node_index == edge.to_node_index
                &&& r.unwrap().edge_type_name@ == self.provider.edge_types@[edge.edge_type as int]@
                &&& r.unwrap().resolved_name@ == if (edge.name_or_index_ref as int)
                    < self.provider.strings@.len() {
                    self.provider.strings@[edge.name_or_index_ref as int]@
                } else {
                    Seq::<u8>::empty()
                }
            },
    {
        match self.provider.get_edge(edge_index) {
            Some(edge) => Some(self.provider.edge_detail(edge_index, edge)),
            None => None,
        }
    }

    /// Duplicate-string query: the subgraph reachable from every node
    /// holding a qualifying duplicated string value.
    pub fn get_same_string_value_nodes(&self, cond: &SameStringCondition) -> (r: Subgraph)
        requires
            self.wf(),
        ensures
            r.node_indexes@.no_duplicates(),
            r.edge_indexes@.no_duplicates(),
            forall|x: usize| #[trigger] r.node_indexes@.contains(x) <==> reachable_duplicates(
                self.provider, *cond, x as int),
            forall|e: usize| #[trigger] r.edge_indexes@.contains(e) <==> subgraph_edge(
                self.provider, r.node_indexes@, e as int),
    {
        let n = self.provider.nodes.len();
        let roots = same_string_roots(&self.provider, cond);
        let (node_indexes, edge_indexes) = children_graph(&self.provider, &roots);
        proof {
            assert forall|x: usize| #[trigger] node_indexes@.contains(x) == reachable_duplicates(
                self.provider, *cond, x as int) by {
                lemma_reach_equiv_duplicates(self.provider, roots@, *cond, x as int);
            };
        }
        Subgraph { node_indexes, edge_indexes }
    }
}

} // verus!
