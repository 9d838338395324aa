//! The decoded snapshot store: flat node, edge and string tables.
//!
//! All cross-references are integer indices, never pointers: node records
//! name their type and display name by index into the type and string
//! tables, and own a contiguous run of the edge table whose start is the
//! running sum of the edge counts of all preceding nodes.

use vstd::prelude::*;

verus! {

/// One heap object record.
#[derive(Clone, Copy, PartialEq, Eq, Structural)]
pub struct Node {
    /// Unique 32-bit identifier, stable across the snapshot.
    pub id: u32,
    /// Index into the node-type table.
    pub node_type: u32,
    /// Index into the string table (display name; for string nodes, the value).
    pub name_ref: u32,
    /// Shallow size of the object in bytes.
    pub self_size: u32,
    /// Number of outgoing edges owned by this node.
    pub edge_count: u32,
}

/// One directed reference from an owning node to a target node.
#[derive(Clone, Copy, PartialEq, Eq, Structural)]
pub struct Edge {
    /// Index into the edge-type table.
    pub edge_type: u32,
    /// String-table index for named edges, or a raw numeric index for
    /// indexed edges; resolution degrades to a numeric fallback when it is
    /// not a valid string index.
    pub name_or_index_ref: u32,
    /// Index of the target node in the node table.
    pub to_node_index: u32,
}

/// Mathematical model of a decoded store: the five tables as sequences.
#[verifier::ext_equal]
pub ghost struct StoreModel {
    pub node_types: Seq<Seq<u8>>,
    pub edge_types: Seq<Seq<u8>>,
    pub strings: Seq<Seq<u8>>,
    pub nodes: Seq<Node>,
    pub edges: Seq<Edge>,
}

/// Sum of the edge counts of the first `i` nodes: the start of node `i`'s
/// run in the edge table.
pub open spec fn edge_count_sum(nodes: Seq<Node>, i: int) -> int
    decreases i,
{
    if i <= 0 {
        0
    } else {
        edge_count_sum(nodes, i - 1) + nodes[i - 1].edge_count
    }
}

/// Validity of one model: every index in range, edge runs exactly tiling
/// the edge table, and node ids unique.
pub open spec fn model_wf(m: StoreModel) -> bool {
    &&& forall|i: int|
        0 <= i < m.nodes.len() ==> (#[trigger] m.nodes[i].node_type as int) < m.node_types.len()
    &&& forall|i: int|
        0 <= i < m.nodes.len() ==> (#[trigger] m.nodes[i].name_ref as int) < m.strings.len()
    &&& forall|e: int|
        0 <= e < m.edges.len() ==> (#[trigger] m.edges[e].edge_type as int) < m.edge_types.len()
    &&& forall|e: int|
        0 <= e < m.edges.len() ==> (#[trigger] m.edges[e].to_node_index as int) < m.nodes.len()
    &&& edge_count_sum(m.nodes, m.nodes.len() as int) == m.edges.len()
    &&& forall|i: int, j: int|
        0 <= i < j < m.nodes.len() ==> (#[trigger] m.nodes[i].id) != (#[trigger] m.nodes[j].id)
}

/// The decoded snapshot: read-only tables plus the precomputed edge-run
/// offsets (`edge_offsets[i]` is where node `i`'s outgoing edges start).
pub struct SnapshotStore {
    pub node_types: Vec<Vec<u8>>,
    pub edge_types: Vec<Vec<u8>>,
    pub strings: Vec<Vec<u8>>,
    pub nodes: Vec<Node>,
    pub edges: Vec<Edge>,
    pub edge_offsets: Vec<usize>,
}

impl SnapshotStore {
    /// The tables of this store as a mathematical model.
    pub open spec fn model(self) -> StoreModel {
        StoreModel {
            node_types: self.node_types@.map_values(|v: Vec<u8>| v@),
            edge_types: self.edge_types@.map_values(|v: Vec<u8>| v@),
            strings: self.strings@.map_values(|v: Vec<u8>| v@),
            nodes: self.nodes@,
            edges: self.edges@,
        }
    }

    /// Well-formedness: the model is valid and the offset table caches the
    /// edge-count prefix sums.
    pub open spec fn wf(self) -> bool {
        &&& model_wf(self.model())
        &&& self.edge_offsets@.len() == self.nodes@.len()
        &&& forall|i: int|
            0 <= i < self.nodes@.len() ==> (#[trigger] self.edge_offsets@[i] as int)
                == edge_count_sum(self.nodes@, i)
    }

    /// A store with no nodes, edges, strings or types: the state before any
    /// successful decode.
    pub fn empty() -> (r: SnapshotStore)
        ensures
            r.wf(),
            r.nodes@.len() == 0,
            r.edges@.len() == 0,
            r.strings@.len() == 0,
            r.node_types@.len() == 0,
            r.edge_types@.len() == 0,
    {
        SnapshotStore {
            node_types: Vec::new(),
            edge_types: Vec::new(),
            strings: Vec::new(),
            nodes: Vec::new(),
            edges: Vec::new(),
            edge_offsets: Vec::new(),
        }
    }

    /// Number of decoded nodes.
    pub fn node_count(&self) -> (n: usize)
        ensures
            n == self.nodes@.len(),
    {
        self.nodes.len()
    }

    /// Number of decoded edges.
    pub fn edge_count(&self) -> (n: usize)
        ensures
            n == self.edges@.len(),
    {
        self.edges.len()
    }

    /// Look up a node by its snapshot id. Ids are unique in a well-formed
    /// store, so the result is the one node carrying `id`, or `None` when no
    /// node does.
    pub fn get_node(&self, id: u32) -> (r: Option<Node>)
        requires
            self.wf(),
        ensures
            r.is_some() <==> exists|i: int| 0 <= i < self.nodes@.len() && self.nodes@[i].id == id,
            forall|i: int|
                0 <= i < self.nodes@.len() && (#[trigger] self.nodes@[i].id) == id ==> r == Some(
                    self.nodes@[i],
                ),
    {
        let mut i: usize = 0;
        while i < self.nodes.len()
            invariant
                self.wf(),
                i <= self.nodes@.len(),
                forall|k: int| 0 <= k < i ==> (#[trigger] self.nodes@[k].id) != id,
            decreases self.nodes@.len() - i,
        {
            if self.nodes[i].id == id {
                proof {
                    assert forall|j: int|
                        0 <= j < self.nodes@.len() && (#[trigger] self.nodes@[j].id)
                            == id implies self.nodes@[j] == self.nodes@[i as int] by {
                        if j != i as int {
                            lemma_node_id_unique(*self, i as int, j);
                        }
                    };
                }
                return Some(self.nodes[i]);
            }
            i = i + 1;
        }
        None
    }

    /// Look up an edge by its position in the flattened edge table.
    pub fn get_edge(&self, edge_index: usize) -> (r: Option<Edge>)
        ensures
            r.is_some() <==> edge_index < self.edges@.len(),
            edge_index < self.edges@.len() ==> r == Some(self.edges@[edge_index as int]),
    {
        if edge_index < self.edges.len() {
            Some(self.edges[edge_index])
        } else {
            None
        }
    }

    /// String-table lookup, degrading to the empty string when the index is
    /// out of range (a corrupted reference must never abort a query).
    pub fn resolve_string(&self, index: usize) -> (r: Vec<u8>)
        ensures
            r@ == if index < self.strings@.len() {
                self.strings@[index as int]@
            } else {
                Seq::<u8>::empty()
            },
    {
        if index < self.strings.len() {
            crate::bytes::copy_bytes(&self.strings[index])
        } else {
            let r: Vec<u8> = Vec::new();
            proof {
                assert(r@ =~= Seq::<u8>::empty());
            }
            r
        }
    }

    /// Node-type-table lookup, degrading to the empty string out of range.
    pub fn resolve_node_type(&self, index: usize) -> (r: Vec<u8>)
        ensures
            r@ == if index < self.node_types@.len() {
                self.node_types@[index as int]@
            } else {
                Seq::<u8>::empty()
            },
    {
        if index < self.node_types.len() {
            crate::bytes::copy_bytes(&self.node_types[index])
        } else {
            let r: Vec<u8> = Vec::new();
            proof {
                assert(r@ =~= Seq::<u8>::empty());
            }
            r
        }
    }

    /// Edge-type-table lookup, degrading to the empty string out of range.
    pub fn resolve_edge_type(&self, index: usize) -> (r: Vec<u8>)
        ensures
            r@ == if index < self.edge_types@.len() {
                self.edge_types@[index as int]@
            } else {
                Seq::<u8>::empty()
            },
    {
        if index < self.edge_types.len() {
            crate::bytes::copy_bytes(&self.edge_types[index])
        } else {
            let r: Vec<u8> = Vec::new();
            proof {
                assert(r@ =~= Seq::<u8>::empty());
            }
            r
        }
    }
}

/// In a well-formed store, two distinct node-table positions never carry
/// the same id.
pub proof fn lemma_node_id_unique(s: SnapshotStore, i: int, j: int)
    requires
        s.wf(),
        0 <= i < s.nodes@.len(),
        0 <= j < s.nodes@.len(),
        i != j,
    ensures
        s.nodes@[i].id != s.nodes@[j].id,
{
    let m = s.model();
    assert(m.nodes == s.nodes@);
    if i < j {
        assert(m.nodes[i].id != m.nodes[j].id);
    } else {
        assert(m.nodes[j].id != m.nodes[i].id);
    }
}

/// The prefix sums of edge counts are monotone, and every prefix is bounded
/// by the total.
pub proof fn lemma_edge_count_sum_monotone(nodes: Seq<Node>, i: int, j: int)
    requires
        0 <= i <= j <= nodes.len(),
    ensures
        edge_count_sum(nodes, i) <= edge_count_sum(nodes, j),
    decreases j - i,
{
    if i < j {
        lemma_edge_count_sum_monotone(nodes, i, j - 1);
    }
}

} // verus!
