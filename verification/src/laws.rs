//! Laws of the engine, stated and proved over the contracts of decode and
//! the query functions.
//!
//! Each query's contract pins its result as a function of the store and
//! the condition alone, so issuing the same query twice yields the same
//! result: the lemmas here derive that explicitly, together with the
//! decode-time counting and validity guarantees.

use vstd::prelude::*;

use crate::decode::spec_decode;
use crate::query::{FilterCondition, SameStringCondition, is_duplicate_root, node_matches};
use crate::reach::{owns_edge, subgraph_edge};
use crate::tables::{SnapshotStore, StoreModel, edge_count_sum};

verus! {

/// Two strictly increasing index sequences with the same members are
/// identical.
proof fn lemma_sorted_same_members_equal(r1: Seq<usize>, r2: Seq<usize>)
    requires
        forall|k1: int, k2: int| 0 <= k1 < k2 < r1.len() ==> r1[k1] < r1[k2],
        forall|k1: int, k2: int| 0 <= k1 < k2 < r2.len() ==> r2[k1] < r2[k2],
        forall|x: usize| r1.contains(x) == r2.contains(x),
    ensures
        r1 == r2,
    decreases r1.len(),
{
    if r1.len() == 0 {
        if r2.len() > 0 {
            assert(r2.contains(r2[0]));
            assert(r1.contains(r2[0]));
            assert(false);
        }
        assert(r1 =~= r2);
    } else {
        assert(r1.contains(r1[0]));
        assert(r2.contains(r1[0]));
        let k = choose|k: int| 0 <= k < r2.len() && r2[k] == r1[0];
        assert(r2.contains(r2[0]));
        assert(r1.contains(r2[0]));
        let m = choose|m: int| 0 <= m < r1.len() && r1[m] == r2[0];
        assert(m == 0 || r1[0] < r1[m]);
        assert(k == 0 || r2[0] < r2[k]);
        assert(r1[0] == r2[0]);
        let t1 = r1.subrange(1, r1.len() as int);
        let t2 = r2.subrange(1, r2.len() as int);
        assert forall|x: usize| t1.contains(x) == t2.contains(x) by {
            if t1.contains(x) {
                let i = choose|i: int| 0 <= i < t1.len() && t1[i] == x;
                assert(r1[i + 1] == x);
                assert(r1[0] < r1[i + 1]);
                assert(r1.contains(x));
                assert(r2.contains(x));
                let j = choose|j: int| 0 <= j < r2.len() && r2[j] == x;
                assert(j != 0);
                assert(t2[j - 1] == x);
                assert(t2.contains(x));
            }
            if t2.contains(x) {
                let i = choose|i: int| 0 <= i < t2.len() && t2[i] == x;
                assert(r2[i + 1] == x);
                assert(r2[0] < r2[i + 1]);
                assert(r2.contains(x));
                assert(r1.contains(x));
                let j = choose|j: int| 0 <= j < r1.len() && r1[j] == x;
                assert(j != 0);
                assert(t1[j - 1] == x);
                assert(t1.contains(x));
            }
        };
        assert(forall|k1: int, k2: int| 0 <= k1 < k2 < t1.len() ==> t1[k1] < t1[k2]);
        assert(forall|k1: int, k2: int| 0 <= k1 < k2 < t2.len() ==> t2[k1] < t2[k2]);
        lemma_sorted_same_members_equal(t1, t2);
        assert(r1.len() == r2.len());
        assert forall|i: int| 0 <= i < r1.len() implies r1[i] == r2[i] by {
            if i > 0 {
                assert(t1[i - 1] == r1[i]);
                assert(t2[i - 1] == r2[i]);
            }
        };
        assert(r1 =~= r2);
    }
}

/// Law: the filter query is a function of the store and the condition.
/// Any two sequences meeting `filter_nodes`' contract — matching members
/// only, all matching nodes present, table order — are identical, so
/// issuing the same filter query twice yields the identical result.
pub proof fn lemma_filter_requery_identical(
    s: SnapshotStore,
    c: FilterCondition,
    r1: Seq<usize>,
    r2: Seq<usize>,
)
    requires
        forall|k: int|
            0 <= k < r1.len() ==> (#[trigger] r1[k] as int) < s.nodes@.len() && node_matches(
                s, r1[k] as int, c),
        forall|i: int|
            0 <= i < s.nodes@.len() && #[trigger] node_matches(s, i, c) ==> r1.contains(i as usize),
        forall|k1: int, k2: int| 0 <= k1 < k2 < r1.len() ==> r1[k1] < r1[k2],
        forall|k: int|
            0 <= k < r2.len() ==> (#[trigger] r2[k] as int) < s.nodes@.len() && node_matches(
                s, r2[k] as int, c),
        forall|i: int|
            0 <= i < s.nodes@.len() && #[trigger] node_matches(s, i, c) ==> r2.contains(i as usize),
        forall|k1: int, k2: int| 0 <= k1 < k2 < r2.len() ==> r2[k1] < r2[k2],
    ensures
        r1 == r2,
{
    assert forall|x: usize| r1.contains(x) == r2.contains(x) by {
        if r1.contains(x) {
            let k = choose|k: int| 0 <= k < r1.len() && r1[k] == x;
            assert(node_matches(s, x as int, c));
            assert(r2.contains(x));
        }
        if r2.contains(x) {
            let k = choose|k: int| 0 <= k < r2.len() && r2[k] == x;
            assert(node_matches(s, x as int, c));
            assert(r1.contains(x));
        }
    };
    lemma_sorted_same_members_equal(r1, r2);
}

/// Law: the duplicate-string root query is a function of the store and
/// the condition, in the same sense: its contract admits exactly one
/// result sequence, so a repeated query yields the identical result.
pub proof fn lemma_duplicates_requery_identical(
    s: SnapshotStore,
    c: SameStringCondition,
    r1: Seq<usize>,
    r2: Seq<usize>,
)
    requires
        forall|k: int| 0 <= k < r1.len() ==> is_duplicate_root(s, c, #[trigger] r1[k] as int),
        forall|i: int| #[trigger] is_duplicate_root(s, c, i) ==> r1.contains(i as usize),
        forall|k1: int, k2: int| 0 <= k1 < k2 < r1.len() ==> r1[k1] < r1[k2],
        forall|k: int| 0 <= k < r2.len() ==> is_duplicate_root(s, c, #[trigger] r2[k] as int),
        forall|i: int| #[trigger] is_duplicate_root(s, c, i) ==> r2.contains(i as usize),
        forall|k1: int, k2: int| 0 <= k1 < k2 < r2.len() ==> r2[k1] < r2[k2],
    ensures
        r1 == r2,
{
    assert forall|x: usize| r1.contains(x) == r2.contains(x) by {
        if r1.contains(x) {
            let k = choose|k: int| 0 <= k < r1.len() && r1[k] == x;
            assert(is_duplicate_root(s, c, x as int));
            assert(r2.contains(x));
        }
        if r2.contains(x) {
            let k = choose|k: int| 0 <= k < r2.len() && r2[k] == x;
            assert(is_duplicate_root(s, c, x as int));
            assert(r1.contains(x));
        }
    };
    lemma_sorted_same_members_equal(r1, r2);
}

/// Law: a subgraph query is determined up to order. Two results whose
/// node memberships agree with the same reachability predicate, and whose
/// edge memberships are the edges induced by their node sets, have equal
/// node sets and equal edge sets — so a repeated subgraph query yields
/// the same sets.
pub proof fn lemma_subgraph_requery_same_sets(
    s: SnapshotStore,
    reach: spec_fn(int) -> bool,
    n1: Seq<usize>,
    e1: Seq<usize>,
    n2: Seq<usize>,
    e2: Seq<usize>,
)
    requires
        forall|x: usize| #[trigger] n1.contains(x) <==> reach(x as int),
        forall|x: usize| #[trigger] n2.contains(x) <==> reach(x as int),
        forall|e: usize| #[trigger] e1.contains(e) <==> subgraph_edge(s, n1, e as int),
        forall|e: usize| #[trigger] e2.contains(e) <==> subgraph_edge(s, n2, e as int),
    ensures
        n1.to_set() == n2.to_set(),
        e1.to_set() == e2.to_set(),
{
    assert(n1.to_set() =~= n2.to_set());
    assert forall|e: usize| e1.contains(e) == e2.contains(e) by {
        if e1.contains(e) {
            assert(subgraph_edge(s, n1, e as int));
            let w = choose|w: int| n1.contains(w as usize) && #[trigger] owns_edge(s, w, e as int);
            assert(n2.contains(w as usize));
            assert(subgraph_edge(s, n2, e as int));
        }
        if e2.contains(e) {
            assert(subgraph_edge(s, n2, e as int));
            let w = choose|w: int| n2.contains(w as usize) && #[trigger] owns_edge(s, w, e as int);
            assert(n1.contains(w as usize));
            assert(subgraph_edge(s, n1, e as int));
        }
    };
    assert(e1.to_set() =~= e2.to_set());
}

/// Law: any model the decode grammar accepts has edge counts summing to
/// exactly its edge total — the node and edge counts of a well-formed
/// snapshot round-trip through decode.
pub proof fn lemma_decode_edge_count_sum(s: Seq<u8>, m: StoreModel)
    requires
        spec_decode(s) == Some(m),
    ensures
        edge_count_sum(m.nodes, m.nodes.len() as int) == m.edges.len(),
{
}

/// Law: every edge of a decoded model targets a valid node-table index.
pub proof fn lemma_decode_edge_targets_valid(s: Seq<u8>, m: StoreModel)
    requires
        spec_decode(s) == Some(m),
    ensures
        forall|e: int|
            0 <= e < m.edges.len() ==> (#[trigger] m.edges[e].to_node_index as int) < m.nodes.len(),
{
}

} // verus!
