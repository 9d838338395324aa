//! Subgraph extraction: the induced reachable subgraph of a root set.
//!
//! A node owns the contiguous run of the edge table that starts at its
//! edge offset; following owned edges from node to node defines directed
//! reachability. `children_graph` computes, by breadth-first traversal
//! with an id-indexed visited set, exactly the nodes reachable from the
//! roots and exactly the edges owned by those nodes, each at most once —
//! also on cyclic graphs.

use vstd::prelude::*;

use crate::tables::{SnapshotStore, edge_count_sum, lemma_edge_count_sum_monotone};

verus! {

broadcast use vstd::seq_lib::lemma_seq_contains_after_push;

/// Start of node `i`'s run in the edge table.
pub open spec fn run_start(s: SnapshotStore, i: int) -> int {
    edge_count_sum(s.nodes@, i)
}

/// Node `i` owns edge-table position `e`.
pub open spec fn owns_edge(s: SnapshotStore, i: int, e: int) -> bool {
    &&& 0 <= i < s.nodes@.len()
    &&& run_start(s, i) <= e < run_start(s, i) + s.nodes@[i].edge_count
}

/// There is an edge owned by node `a` whose target is node `b`.
pub open spec fn step(s: SnapshotStore, a: int, b: int) -> bool {
    exists|e: int| #[trigger] owns_edge(s, a, e) && s.edges@[e].to_node_index == b
}

/// `p` is a directed path: non-empty, all positions valid nodes, each
/// consecutive pair connected by an owned edge.
pub open spec fn is_path(s: SnapshotStore, p: Seq<int>) -> bool {
    &&& p.len() >= 1
    &&& forall|k: int| 0 <= k < p.len() ==> 0 <= #[trigger] p[k] < s.nodes@.len()
    &&& forall|k: int| 0 <= k < p.len() - 1 ==> step(s, #[trigger] p[k], p[k + 1])
}

/// Node `b` is reachable from the root set by a directed path of owned
/// edges (a root is reachable from itself).
pub open spec fn reachable_from(s: SnapshotStore, roots: Seq<usize>, b: int) -> bool {
    exists|p: Seq<int>| #[trigger] is_path(s, p) && roots.contains(p[0] as usize) && p.last() == b
}

/// Edge-table position `e` belongs to the subgraph induced by the node
/// set `ns`: some node of `ns` owns it.
pub open spec fn subgraph_edge(s: SnapshotStore, ns: Seq<usize>, e: int) -> bool {
    exists|i: int| ns.contains(i as usize) && #[trigger] owns_edge(s, i, e)
}

/// A root is reachable from the root set by the one-node path.
pub proof fn lemma_root_reachable(s: SnapshotStore, roots: Seq<usize>, r: usize)
    requires
        roots.contains(r),
        (r as int) < s.nodes@.len(),
    ensures
        reachable_from(s, roots, r as int),
{
    let p = seq![r as int];
    assert(p[0] == r as int);
    assert(p.last() == r as int);
    assert(is_path(s, p));
}

/// Reachability extends along an owned edge.
pub proof fn lemma_step_reachable(s: SnapshotStore, roots: Seq<usize>, a: int, b: int)
    requires
        reachable_from(s, roots, a),
        step(s, a, b),
        0 <= b < s.nodes@.len(),
    ensures
        reachable_from(s, roots, b),
{
    let p = choose|p: Seq<int>| #[trigger] is_path(s, p) && roots.contains(p[0] as usize)
        && p.last() == a;
    let q = p.push(b);
    assert(q[0] == p[0]);
    assert(q.last() == b);
    assert(is_path(s, q)) by {
        assert(forall|k: int| 0 <= k < p.len() ==> q[k] == #[trigger] p[k]);
        assert(forall|k: int| 0 <= k < q.len() - 1 ==> step(s, q[k], #[trigger] q[k + 1])) by {
            assert(q[p.len() - 1] == a && q[p.len() as int] == b);
        }
    }
    assert(is_path(s, q) && roots.contains(q[0] as usize) && q.last() == b);
}

/// The end of a path whose first node lies in a step-closed node set also
/// lies in that set.
proof fn lemma_path_end_in(s: SnapshotStore, vs: Seq<usize>, p: Seq<int>)
    requires
        is_path(s, p),
        vs.contains(p[0] as usize),
        forall|a: int, c: int|
            0 <= a < s.nodes@.len() && vs.contains(a as usize) && #[trigger] step(s, a, c) && 0 <= c
                < s.nodes@.len() ==> vs.contains(c as usize),
    ensures
        vs.contains(p.last() as usize),
    decreases p.len(),
{
    if p.len() > 1 {
        let q = p.drop_last();
        assert(q[0] == p[0]);
        assert(is_path(s, q)) by {
            assert(forall|k: int| 0 <= k < q.len() ==> q[k] == #[trigger] p[k]);
            assert(forall|k: int| 0 <= k < q.len() - 1 ==> step(s, q[k], #[trigger] q[k + 1]));
        }
        lemma_path_end_in(s, vs, q);
        assert(step(s, p[p.len() - 2], p[p.len() - 1]));
        assert(q.last() == p[p.len() - 2]);
    }
}

/// Every node reachable from roots that all lie in a step-closed node set
/// lies in that set.
proof fn lemma_closed_contains_reachable(
    s: SnapshotStore,
    roots: Seq<usize>,
    vs: Seq<usize>,
    b: int,
)
    requires
        forall|k: int| 0 <= k < roots.len() ==> vs.contains(#[trigger] roots[k]),
        forall|a: int, c: int|
            0 <= a < s.nodes@.len() && vs.contains(a as usize) && #[trigger] step(s, a, c) && 0 <= c
                < s.nodes@.len() ==> vs.contains(c as usize),
        reachable_from(s, roots, b),
    ensures
        vs.contains(b as usize),
{
    let p = choose|p: Seq<int>| #[trigger] is_path(s, p) && roots.contains(p[0] as usize)
        && p.last() == b;
    assert(vs.contains(p[0] as usize)) by {
        let k = choose|k: int| 0 <= k < roots.len() && roots[k] == p[0] as usize;
        assert(vs.contains(roots[k]));
    }
    lemma_path_end_in(s, vs, p);
}

/// The set of valid node indices below `n`.
spec fn indices_below(n: nat) -> Set<usize> {
    Set::new(|x: usize| (x as nat) < n)
}

proof fn lemma_indices_below_card(n: nat)
    requires
        n <= usize::MAX,
    ensures
        indices_below(n).finite(),
        indices_below(n).len() == n,
    decreases n,
{
    if n == 0 {
        assert(indices_below(0) =~= Set::empty());
    } else {
        lemma_indices_below_card((n - 1) as nat);
        assert(indices_below(n) =~= indices_below((n - 1) as nat).insert((n - 1) as usize));
    }
}

/// A duplicate-free sequence of node indices below `n` has at most `n`
/// elements.
proof fn lemma_distinct_bounded(q: Seq<usize>, n: nat)
    requires
        q.no_duplicates(),
        forall|k: int| 0 <= k < q.len() ==> (#[trigger] q[k] as nat) < n,
        n <= usize::MAX,
    ensures
        q.len() <= n,
{
    q.unique_seq_to_set();
    lemma_indices_below_card(n);
    assert(q.to_set().subset_of(indices_below(n)));
    vstd::set_lib::lemma_len_subset(q.to_set(), indices_below(n));
}

/// Two distinct nodes never own the same edge-table position.
pub proof fn lemma_owns_disjoint(s: SnapshotStore, i: int, k: int, e: int)
    requires
        s.wf(),
        owns_edge(s, i, e),
        owns_edge(s, k, e),
    ensures
        i == k,
{
    if i < k {
        lemma_edge_count_sum_monotone(s.nodes@, i + 1, k);
        assert(false);
    } else if k < i {
        lemma_edge_count_sum_monotone(s.nodes@, k + 1, i);
        assert(false);
    }
}

/// Compute the induced reachable subgraph of a root set: exactly the nodes
/// reachable from some root (each once), and exactly the edge-table
/// positions owned by those nodes (each once).
#[verifier::rlimit(60)]
pub fn children_graph(store: &SnapshotStore, roots: &Vec<usize>) -> (r: (Vec<usize>, Vec<usize>))
    requires
        store.wf(),
        forall|k: int| 0 <= k < roots@.len() ==> (#[trigger] roots@[k] as int)
            < store.nodes@.len(),
    ensures
        r.0@.no_duplicates(),
        r.1@.no_duplicates(),
        forall|x: usize| r.0@.contains(x) <==> reachable_from(*store, roots@, x as int),
        forall|e: usize| r.1@.contains(e) <==> subgraph_edge(*store, r.0@, e as int),
{
    let n = store.nodes.len();
    let em = store.edges.len();
    let mut visited: Vec<bool> = vec![false; n];
    let mut queue: Vec<usize> = Vec::new();

    let mut ri: usize = 0;
    while ri < roots.len()
        invariant
            n == store.nodes@.len(),
            visited@.len() == n,
            ri <= roots@.len(),
            forall|k: int| 0 <= k < roots@.len() ==> (#[trigger] roots@[k] as int) < n,
            queue@.no_duplicates(),
            forall|k: int| 0 <= k < queue@.len() ==> (#[trigger] queue@[k] as int) < n,
            forall|x: usize| (x as int) < n ==> (visited@[x as int] <==> queue@.contains(x)),
            forall|k: int| 0 <= k < queue@.len() ==> reachable_from(
                *store, roots@, #[trigger] queue@[k] as int),
            forall|k: int| 0 <= k < ri ==> queue@.contains(#[trigger] roots@[k]),
        decreases roots@.len() - ri,
    {
        let root = roots[ri];
        if !visited[root] {
            visited.set(root, true);
            queue.push(root);
            proof {
                lemma_root_reachable(*store, roots@, root);
            }
        }
        ri = ri + 1;
    }

    let ghost s = *store;
    proof {
        lemma_distinct_bounded(queue@, n as nat);
    }
    let mut out_edges: Vec<usize> = Vec::new();
    let mut head: usize = 0;
    while head < queue.len()
        invariant
            s == *store,
            store.wf(),
            n == store.nodes@.len(),
            em == s.edges@.len(),
            visited@.len() == n,
            head <= queue@.len(),
            queue@.len() <= n,
            queue@.no_duplicates(),
            forall|k: int| 0 <= k < queue@.len() ==> (#[trigger] queue@[k] as int) < n,
            forall|x: usize| (x as int) < n ==> (visited@[x as int] <==> queue@.contains(x)),
            forall|k: int| 0 <= k < queue@.len() ==> reachable_from(
                s, roots@, #[trigger] queue@[k] as int),
            forall|k: int| 0 <= k < roots@.len() ==> queue@.contains(#[trigger] roots@[k]),
            forall|a_i: int, e: int|
                0 <= a_i < head && #[trigger] owns_edge(s, queue@[a_i] as int, e)
                    ==> queue@.contains(s.edges@[e].to_node_index as usize),
            out_edges@.no_duplicates(),
            forall|e: usize| #[trigger] out_edges@.contains(e) <==> exists|a_i: int|
                0 <= a_i < head && owns_edge(s, #[trigger] queue@[a_i] as int, e as int),
        decreases n - head,
    {
        let a = queue[head];
        let start = store.edge_offsets[a];
        let ec = store.nodes[a].edge_count as usize;
        proof {
            lemma_edge_count_sum_monotone(s.nodes@, a as int + 1, n as int);
            assert(start + ec <= s.edges@.len());
        }
        let ghost old_head = head as int;
        let mut j: usize = 0;
        while j < ec
            invariant
                s == *store,
                store.wf(),
                n == store.nodes@.len(),
                em == s.edges@.len(),
                visited@.len() == n,
                old_head == head,
                head < queue@.len(),
                queue@.len() <= n,
                a == queue@[head as int],
                (a as int) < n,
                start == run_start(s, a as int),
                ec == s.nodes@[a as int].edge_count,
                start + ec <= s.edges@.len(),
                j <= ec,
                queue@.no_duplicates(),
                forall|k: int| 0 <= k < queue@.len() ==> (#[trigger] queue@[k] as int) < n,
                forall|x: usize| (x as int) < n ==> (visited@[x as int] <==> queue@.contains(x)),
                forall|k: int| 0 <= k < queue@.len() ==> reachable_from(
                    s, roots@, #[trigger] queue@[k] as int),
                forall|k: int| 0 <= k < roots@.len() ==> queue@.contains(#[trigger] roots@[k]),
                forall|a_i: int, e: int|
                    0 <= a_i < head && #[trigger] owns_edge(s, queue@[a_i] as int, e)
                        ==> queue@.contains(s.edges@[e].to_node_index as usize),
                forall|e: int| start <= e < start + j ==> queue@.contains(
                    (#[trigger] s.edges@[e]).to_node_index as usize),
                out_edges@.no_duplicates(),
                forall|e: usize| #[trigger] out_edges@.contains(e) <==> (exists|a_i: int|
                    0 <= a_i < head && owns_edge(s, #[trigger] queue@[a_i] as int, e as int))
                    || (start <= e < start + j),
            decreases ec - j,
        {
            let ghost old_out = out_edges@;
            let ghost old_queue = queue@;
            let e = start + j;
            proof {
                assert(owns_edge(s, a as int, e as int));
                assert(!out_edges@.contains(e)) by {
                    if exists|a_i: int|
                        0 <= a_i < head && owns_edge(s, #[trigger] queue@[a_i] as int, e as int) {
                        let a_i = choose|a_i: int|
                            0 <= a_i < head && owns_edge(s, #[trigger] queue@[a_i] as int, e as int);
                        lemma_owns_disjoint(s, queue@[a_i] as int, a as int, e as int);
                    }
                }
            }
            out_edges.push(e);
            let b = store.edges[e].to_node_index as usize;
            if !visited[b] {
                visited.set(b, true);
                queue.push(b);
                proof {
                    assert(step(s, a as int, b as int)) by {
                        assert(owns_edge(s, a as int, e as int)
                            && s.edges@[e as int].to_node_index == b as int);
                    }
                    lemma_step_reachable(s, roots@, a as int, b as int);
                    lemma_distinct_bounded(queue@, n as nat);
                }
            }
            proof {
                assert(forall|k: int|
                    0 <= k < old_queue.len() ==> queue@[k] == #[trigger] old_queue[k]);
                assert forall|x: usize| #[trigger] out_edges@.contains(x) implies ((exists|a_i: int|
                    0 <= a_i < head && owns_edge(s, #[trigger] queue@[a_i] as int, x as int))
                    || (start <= x < start + j + 1)) by {
                    if old_out.contains(x) {
                        if exists|a_i: int|
                            0 <= a_i < head && owns_edge(
                            s, #[trigger] old_queue[a_i] as int, x as int) {
                            let a_i = choose|a_i: int|
                                0 <= a_i < head && owns_edge(
                                s, #[trigger] old_queue[a_i] as int, x as int);
                            assert(owns_edge(s, queue@[a_i] as int, x as int));
                        }
                    } else {
                        assert(x == e);
                    }
                };
                assert forall|x: usize| ((exists|a_i: int|
                    0 <= a_i < head && owns_edge(s, #[trigger] queue@[a_i] as int, x as int))
                    || (start <= x < start + j + 1)) implies #[trigger] out_edges@.contains(
                    x) by {
                    if exists|a_i: int|
                        0 <= a_i < head && owns_edge(s, #[trigger] queue@[a_i] as int, x as int) {
                        let a_i = choose|a_i: int|
                            0 <= a_i < head && owns_edge(
                            s, #[trigger] queue@[a_i] as int, x as int);
                        assert(owns_edge(s, old_queue[a_i] as int, x as int));
                        assert(old_out.contains(x));
                    } else {
                        if x < start + j {
                            assert(old_out.contains(x));
                        } else {
                            assert(x == e);
                        }
                    }
                };
            }
            j = j + 1;
        }
        head = head + 1;
        proof {
            assert(forall|e: usize| #[trigger] out_edges@.contains(e) <==> exists|a_i: int|
                0 <= a_i < head && owns_edge(s, #[trigger] queue@[a_i] as int, e as int)) by {
                assert forall|e: usize| #[trigger] out_edges@.contains(e) implies exists|a_i: int|
                    0 <= a_i < head && owns_edge(s, #[trigger] queue@[a_i] as int, e as int) by {
                    if start <= e < start + ec {
                        assert(owns_edge(s, queue@[old_head] as int, e as int));
                    }
                };
                assert forall|e: usize| (exists|a_i: int|
                    0 <= a_i < head && owns_edge(s, #[trigger] queue@[a_i] as int, e as int))
                    implies out_edges@.contains(e) by {
                    let a_i = choose|a_i: int|
                        0 <= a_i < head && owns_edge(s, #[trigger] queue@[a_i] as int, e as int);
                    if a_i == old_head {
                        assert(start <= e < start + ec);
                    }
                };
            }
        }
    }

    proof {
        assert forall|x: usize| queue@.contains(x) implies reachable_from(
            s, roots@, x as int) by {
            let k = choose|k: int| 0 <= k < queue@.len() && queue@[k] == x;
            assert(reachable_from(s, roots@, queue@[k] as int));
        };
        assert forall|x: usize| reachable_from(s, roots@, x as int) implies queue@.contains(
            x) by {
            assert forall|aa: int, c: int|
                0 <= aa < s.nodes@.len() && queue@.contains(aa as usize) && #[trigger] step(
                s, aa, c) && 0 <= c < s.nodes@.len() implies queue@.contains(c as usize) by {
                let k = choose|k: int| 0 <= k < queue@.len() && queue@[k] == aa as usize;
                let e = choose|e: int| #[trigger] owns_edge(s, aa, e)
                    && s.edges@[e].to_node_index == c;
                assert(owns_edge(s, queue@[k] as int, e));
            };
            lemma_closed_contains_reachable(s, roots@, queue@, x as int);
        };
        assert forall|e: usize| out_edges@.contains(e) implies subgraph_edge(
            s, queue@, e as int) by {
            let a_i = choose|a_i: int|
                0 <= a_i < queue@.len() && owns_edge(s, #[trigger] queue@[a_i] as int, e as int);
            assert(queue@.contains(queue@[a_i]));
            assert(owns_edge(s, queue@[a_i] as int, e as int));
        };
        assert forall|e: usize| subgraph_edge(s, queue@, e as int) implies out_edges@.contains(
            e) by {
            let i = choose|i: int| queue@.contains(i as usize) && #[trigger] owns_edge(
                s, i, e as int);
            let k = choose|k: int| 0 <= k < queue@.len() && queue@[k] == i as usize;
            assert(owns_edge(s, queue@[k] as int, e as int));
        };
    }
    (queue, out_edges)
}

} // verus!
