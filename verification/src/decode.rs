//! Binary snapshot decoder.
//!
//! Wire layout, all integers 32-bit little-endian: three string tables
//! (node types, edge types, interned strings), each a count followed by
//! that many length-prefixed byte strings; then a node count followed by
//! that many 20-byte node records (id, node type, name ref, self size,
//! edge count); then an edge count followed by that many 12-byte edge
//! records (edge type, name-or-index ref, target node index). The buffer
//! must end exactly after the last edge record.
//!
//! `spec_decode` is the grammar: it yields a model exactly when the buffer
//! is structurally sound and the decoded tables satisfy `model_wf` (all
//! indices in range, edge runs tiling the edge table, unique node ids).
//! `decode` is proved to return `Ok` for precisely those buffers.

use vstd::prelude::*;

use crate::tables::{Edge, Node, SnapshotStore, StoreModel, edge_count_sum, model_wf,
    lemma_edge_count_sum_monotone};

verus! {

/// A decode failure.
#[derive(Clone, Copy, PartialEq, Eq, Structural, Debug)]
pub enum DecodeError {
    /// The buffer has zero length.
    Empty,
    /// The buffer's structure does not match the expected layout: wrong
    /// section sizes, truncated data, or invalid index ranges.
    Malformed,
}

/// Value of the four little-endian bytes at `pos`.
pub open spec fn le32_at(s: Seq<u8>, pos: int) -> int {
    s[pos] + 256 * s[pos + 1] + 65536 * s[pos + 2] + 16777216 * s[pos + 3]
}

/// Parse `n` length-prefixed byte strings starting at `pos`; yield the
/// strings and the position after the last one.
pub open spec fn parse_strings(s: Seq<u8>, pos: int, n: nat) -> Option<(Seq<Seq<u8>>, int)>
    decreases n,
{
    if n == 0 {
        Some((Seq::empty(), pos))
    } else if pos + 4 <= s.len() && pos + 4 + le32_at(s, pos) <= s.len() {
        let l = le32_at(s, pos);
        match parse_strings(s, pos + 4 + l, (n - 1) as nat) {
            Some(rest) => Some((seq![s.subrange(pos + 4, pos + 4 + l)] + rest.0, rest.1)),
            None => None,
        }
    } else {
        None
    }
}

/// Parse one string table: a count followed by that many strings.
pub open spec fn parse_table(s: Seq<u8>, pos: int) -> Option<(Seq<Seq<u8>>, int)> {
    if pos + 4 <= s.len() {
        parse_strings(s, pos + 4, le32_at(s, pos) as nat)
    } else {
        None
    }
}

/// The node record whose 20 bytes start at `pos`.
pub open spec fn node_at(s: Seq<u8>, pos: int) -> Node {
    Node {
        id: le32_at(s, pos) as u32,
        node_type: le32_at(s, pos + 4) as u32,
        name_ref: le32_at(s, pos + 8) as u32,
        self_size: le32_at(s, pos + 12) as u32,
        edge_count: le32_at(s, pos + 16) as u32,
    }
}

/// The `n` node records starting at `pos`.
pub open spec fn nodes_at(s: Seq<u8>, pos: int, n: nat) -> Seq<Node> {
    Seq::new(n, |i: int| node_at(s, pos + 20 * i))
}

/// The edge record whose 12 bytes start at `pos`.
pub open spec fn edge_at(s: Seq<u8>, pos: int) -> Edge {
    Edge {
        edge_type: le32_at(s, pos) as u32,
        name_or_index_ref: le32_at(s, pos + 4) as u32,
        to_node_index: le32_at(s, pos + 8) as u32,
    }
}

/// The `n` edge records starting at `pos`.
pub open spec fn edges_at(s: Seq<u8>, pos: int, n: nat) -> Seq<Edge> {
    Seq::new(n, |i: int| edge_at(s, pos + 12 * i))
}

/// Parse the node and edge sections after the three string tables, and
/// validate the assembled model.
pub open spec fn parse_body(
    s: Seq<u8>,
    pos: int,
    node_types: Seq<Seq<u8>>,
    edge_types: Seq<Seq<u8>>,
    strings: Seq<Seq<u8>>,
) -> Option<StoreModel> {
    if pos + 4 <= s.len() {
        let n = le32_at(s, pos);
        if pos + 4 + 20 * n + 4 <= s.len() {
            let epos = pos + 4 + 20 * n;
            let e = le32_at(s, epos);
            if epos + 4 + 12 * e == s.len() {
                let m = StoreModel {
                    node_types,
                    edge_types,
                    strings,
                    nodes: nodes_at(s, pos + 4, n as nat),
                    edges: edges_at(s, epos + 4, e as nat),
                };
                if model_wf(m) {
                    Some(m)
                } else {
                    None
                }
            } else {
                None
            }
        } else {
            None
        }
    } else {
        None
    }
}

/// The snapshot grammar: the model a buffer decodes to, or `None` when the
/// buffer is not a well-formed snapshot.
pub open spec fn spec_decode(s: Seq<u8>) -> Option<StoreModel> {
    match parse_table(s, 0) {
        None => None,
        Some(t1) => match parse_table(s, t1.1) {
            None => None,
            Some(t2) => match parse_table(s, t2.1) {
                None => None,
                Some(t3) => parse_body(s, t3.1, t1.0, t2.0, t3.0),
            },
        },
    }
}

/// The sequence view of a parsed string table.
pub open spec fn table_model(t: Seq<Vec<u8>>) -> Seq<Seq<u8>> {
    t.map_values(|v: Vec<u8>| v@)
}

/// Splitting a string-section parse: parsing `n` strings agrees with
/// parsing the first `k` and then the remaining `n - k` from where the
/// first parse stopped.
proof fn lemma_parse_strings_split(s: Seq<u8>, pos: int, k: nat, n: nat)
    requires
        k <= n,
    ensures
        match parse_strings(s, pos, k) {
            None => parse_strings(s, pos, n) is None,
            Some(pre) => parse_strings(s, pos, n) == match parse_strings(s, pre.1, (n - k) as nat) {
                None => None::<(Seq<Seq<u8>>, int)>,
                Some(suf) => Some((pre.0 + suf.0, suf.1)),
            },
        },
    decreases k,
{
    if k == 0 {
        match parse_strings(s, pos, n) {
            None => {
            }
            Some(suf) => {
                assert(Seq::<Seq<u8>>::empty() + suf.0 =~= suf.0);
            }
        }
    } else {
        if pos + 4 <= s.len() && pos + 4 + le32_at(s, pos) <= s.len() {
            let l = le32_at(s, pos);
            let item = seq![s.subrange(pos + 4, pos + 4 + l)];
            lemma_parse_strings_split(s, pos + 4 + l, (k - 1) as nat, (n - 1) as nat);
            match parse_strings(s, pos + 4 + l, (k - 1) as nat) {
                None => {
                }
                Some(pre1) => {
                    match parse_strings(s, pre1.1, (n - k) as nat) {
                        None => {
                        }
                        Some(suf) => {
                            assert((item + pre1.0) + suf.0 =~= item + (pre1.0 + suf.0));
                        }
                    }
                }
            }
        }
    }
}

/// Read the little-endian 32-bit value at `pos`.
fn read_u32_at(buf: &Vec<u8>, pos: usize) -> (r: u32)
    requires
        pos + 4 <= buf@.len(),
    ensures
        r as int == le32_at(buf@, pos as int),
{
    let n = buf.len();
    assert(pos + 4 <= n);
    let b0 = buf[pos] as u32;
    let b1 = buf[pos + 1] as u32;
    let b2 = buf[pos + 2] as u32;
    let b3 = buf[pos + 3] as u32;
    b0 + 256 * b1 + 65536 * b2 + 16777216 * b3
}

/// Copy the bytes of `buf` in `[start, end)`.
fn copy_range(buf: &Vec<u8>, start: usize, end: usize) -> (r: Vec<u8>)
    requires
        start <= end,
        end <= buf@.len(),
    ensures
        r@ == buf@.subrange(start as int, end as int),
{
    let mut r: Vec<u8> = Vec::new();
    let mut i: usize = start;
    while i < end
        invariant
            start <= i <= end,
            end <= buf@.len(),
            r@ == buf@.subrange(start as int, i as int),
        decreases end - i,
    {
        r.push(buf[i]);
        i = i + 1;
        proof {
            assert(r@ =~= buf@.subrange(start as int, i as int));
        }
    }
    r
}

/// Parse one string table (count plus strings) starting at `pos`,
/// following `parse_table` exactly.
fn parse_string_table(buf: &Vec<u8>, pos: usize) -> (r: Option<(Vec<Vec<u8>>, usize)>)
    requires
        pos <= buf@.len(),
    ensures
        r is Some <==> parse_table(buf@, pos as int) is Some,
        r matches Some(t) ==> {
            &&& parse_table(buf@, pos as int) == Some((table_model(t.0@), t.1 as int))
            &&& t.1 <= buf@.len()
        },
{
    if buf.len() - pos < 4 {
        return None;
    }
    let count = read_u32_at(buf, pos) as usize;
    let start = pos + 4;
    let mut table: Vec<Vec<u8>> = Vec::new();
    let mut p: usize = start;
    let mut i: usize = 0;
    while i < count
        invariant
            i <= count,
            pos + 4 <= buf@.len(),
            start == pos + 4,
            count as int == le32_at(buf@, pos as int),
            p <= buf@.len(),
            table@.len() == i,
            parse_strings(buf@, start as int, i as nat) == Some((table_model(table@), p as int)),
        decreases count - i,
    {
        proof {
            lemma_parse_strings_split(buf@, start as int, i as nat, count as nat);
        }
        if buf.len() - p < 4 {
            assert(parse_strings(buf@, p as int, (count - i) as nat) is None);
            assert(parse_table(buf@, pos as int) is None);
            return None;
        }
        let l = read_u32_at(buf, p) as usize;
        if l > buf.len() - (p + 4) {
            assert(parse_strings(buf@, p as int, (count - i) as nat) is None);
            assert(parse_table(buf@, pos as int) is None);
            return None;
        }
        let item = copy_range(buf, p + 4, p + 4 + l);
        let ghost old_table = table@;
        let ghost old_p = p as int;
        table.push(item);
        p = p + 4 + l;
        i = i + 1;
        proof {
            lemma_parse_strings_split(buf@, start as int, (i - 1) as nat, i as nat);
            assert(parse_strings(buf@, old_p, 1nat) == Some(
                (seq![buf@.subrange(old_p + 4, old_p + 4 + le32_at(buf@, old_p))], p as int),
            )) by {
                assert(parse_strings(buf@, old_p + 4 + le32_at(buf@, old_p), 0nat) == Some(
                    (Seq::<Seq<u8>>::empty(), p as int),
                ));
                assert(seq![buf@.subrange(old_p + 4, old_p + 4 + le32_at(buf@, old_p))]
                    + Seq::<Seq<u8>>::empty() =~= seq![
                    buf@.subrange(old_p + 4, old_p + 4 + le32_at(buf@, old_p)),
                ]);
            }
            assert(table_model(old_table) + seq![item@] =~= table_model(table@));
        }
    }
    proof {
        lemma_parse_strings_split(buf@, start as int, count as nat, count as nat);
    }
    Some((table, p))
}

/// Parse `count` fixed-size node records starting at `pos`.
fn parse_node_records(buf: &Vec<u8>, pos: usize, count: usize) -> (r: Option<(Vec<Node>, usize)>)
    requires
        pos <= buf@.len(),
    ensures
        r is Some <==> pos + 20 * count <= buf@.len(),
        r matches Some(t) ==> {
            &&& t.0@ == nodes_at(buf@, pos as int, count as nat)
            &&& t.1 == pos + 20 * count
            &&& t.1 <= buf@.len()
        },
{
    let mut nodes: Vec<Node> = Vec::new();
    let mut p: usize = pos;
    let mut i: usize = 0;
    while i < count
        invariant
            i <= count,
            p == pos + 20 * i,
            p <= buf@.len(),
            nodes@ == nodes_at(buf@, pos as int, i as nat),
        decreases count - i,
    {
        if buf.len() - p < 20 {
            assert(pos + 20 * count >= pos + 20 * (i + 1));
            return None;
        }
        let node = Node {
            id: read_u32_at(buf, p),
            node_type: read_u32_at(buf, p + 4),
            name_ref: read_u32_at(buf, p + 8),
            self_size: read_u32_at(buf, p + 12),
            edge_count: read_u32_at(buf, p + 16),
        };
        assert(node == node_at(buf@, p as int));
        nodes.push(node);
        p = p + 20;
        i = i + 1;
        proof {
            assert(nodes@ =~= nodes_at(buf@, pos as int, i as nat));
        }
    }
    Some((nodes, p))
}

/// Parse `count` fixed-size edge records starting at `pos`.
fn parse_edge_records(buf: &Vec<u8>, pos: usize, count: usize) -> (r: Option<(Vec<Edge>, usize)>)
    requires
        pos <= buf@.len(),
    ensures
        r is Some <==> pos + 12 * count <= buf@.len(),
        r matches Some(t) ==> {
            &&& t.0@ == edges_at(buf@, pos as int, count as nat)
            &&& t.1 == pos + 12 * count
            &&& t.1 <= buf@.len()
        },
{
    let mut edges: Vec<Edge> = Vec::new();
    let mut p: usize = pos;
    let mut i: usize = 0;
    while i < count
        invariant
            i <= count,
            p == pos + 12 * i,
            p <= buf@.len(),
            edges@ == edges_at(buf@, pos as int, i as nat),
        decreases count - i,
    {
        if buf.len() - p < 12 {
            assert(pos + 12 * count >= pos + 12 * (i + 1));
            return None;
        }
        let edge = Edge {
            edge_type: read_u32_at(buf, p),
            name_or_index_ref: read_u32_at(buf, p + 4),
            to_node_index: read_u32_at(buf, p + 8),
        };
        assert(edge == edge_at(buf@, p as int));
        edges.push(edge);
        p = p + 12;
        i = i + 1;
        proof {
            assert(edges@ =~= edges_at(buf@, pos as int, i as nat));
        }
    }
    Some((edges, p))
}

/// Check that every node's type and name references are in range.
fn check_node_refs(nodes: &Vec<Node>, nt_len: usize, st_len: usize) -> (r: bool)
    ensures
        r == ((forall|i: int|
            0 <= i < nodes@.len() ==> (#[trigger] nodes@[i].node_type as int) < nt_len) && (
        forall|i: int| 0 <= i < nodes@.len() ==> (#[trigger] nodes@[i].name_ref as int) < st_len)),
{
    let mut i: usize = 0;
    while i < nodes.len()
        invariant
            i <= nodes@.len(),
            forall|k: int| 0 <= k < i ==> (#[trigger] nodes@[k].node_type as int) < nt_len,
            forall|k: int| 0 <= k < i ==> (#[trigger] nodes@[k].name_ref as int) < st_len,
        decreases nodes@.len() - i,
    {
        if nodes[i].node_type as usize >= nt_len || nodes[i].name_ref as usize >= st_len {
            return false;
        }
        i = i + 1;
    }
    true
}

/// Check that every edge's type reference and target index are in range.
fn check_edge_refs(edges: &Vec<Edge>, et_len: usize, n_count: usize) -> (r: bool)
    ensures
        r == ((forall|e: int|
            0 <= e < edges@.len() ==> (#[trigger] edges@[e].edge_type as int) < et_len) && (
        forall|e: int|
            0 <= e < edges@.len() ==> (#[trigger] edges@[e].to_node_index as int) < n_count)),
{
    let mut i: usize = 0;
    while i < edges.len()
        invariant
            i <= edges@.len(),
            forall|k: int| 0 <= k < i ==> (#[trigger] edges@[k].edge_type as int) < et_len,
            forall|k: int| 0 <= k < i ==> (#[trigger] edges@[k].to_node_index as int) < n_count,
        decreases edges@.len() - i,
    {
        if edges[i].edge_type as usize >= et_len || edges[i].to_node_index as usize >= n_count {
            return false;
        }
        i = i + 1;
    }
    true
}

/// Check that no two node records carry the same id.
fn check_ids_unique(nodes: &Vec<Node>) -> (r: bool)
    ensures
        r == (forall|i: int, j: int|
            0 <= i < j < nodes@.len() ==> (#[trigger] nodes@[i].id) != (#[trigger] nodes@[j].id)),
{
    let mut i: usize = 0;
    while i < nodes.len()
        invariant
            i <= nodes@.len(),
            forall|a: int, b: int|
                0 <= a < b < nodes@.len() && a < i ==> (#[trigger] nodes@[a].id) != (
                #[trigger] nodes@[b].id),
        decreases nodes@.len() - i,
    {
        let mut j: usize = i + 1;
        while j < nodes.len()
            invariant
                i < j || i + 1 == j,
                i < nodes@.len(),
                i + 1 <= j <= nodes@.len(),
                forall|a: int, b: int|
                    0 <= a < b < nodes@.len() && a < i ==> (#[trigger] nodes@[a].id) != (
                    #[trigger] nodes@[b].id),
                forall|b: int|
                    i < b < j ==> (#[trigger] nodes@[b].id) != nodes@[i as int].id,
            decreases nodes@.len() - j,
        {
            if nodes[i].id == nodes[j].id {
                return false;
            }
            j = j + 1;
        }
        i = i + 1;
    }
    true
}

/// Check that the edge counts of all nodes sum to exactly `target`.
fn sum_matches(nodes: &Vec<Node>, target: usize) -> (r: bool)
    ensures
        r == (edge_count_sum(nodes@, nodes@.len() as int) == target),
{
    let mut acc: usize = 0;
    let mut i: usize = 0;
    while i < nodes.len()
        invariant
            i <= nodes@.len(),
            acc == edge_count_sum(nodes@, i as int),
            acc <= target,
        decreases nodes@.len() - i,
    {
        let ec = nodes[i].edge_count as usize;
        if ec > target - acc {
            proof {
                assert(edge_count_sum(nodes@, i + 1) > target);
                lemma_edge_count_sum_monotone(nodes@, i + 1, nodes@.len() as int);
            }
            return false;
        }
        acc = acc + ec;
        i = i + 1;
    }
    acc == target
}

/// Build the edge-run offset table: position `i` holds the sum of the edge
/// counts of all nodes before `i`.
fn build_offsets(nodes: &Vec<Node>, total: usize) -> (r: Vec<usize>)
    requires
        edge_count_sum(nodes@, nodes@.len() as int) == total,
    ensures
        r@.len() == nodes@.len(),
        forall|i: int| 0 <= i < nodes@.len() ==> (#[trigger] r@[i] as int) == edge_count_sum(
            nodes@, i),
{
    let mut offsets: Vec<usize> = Vec::new();
    let mut acc: usize = 0;
    let mut i: usize = 0;
    while i < nodes.len()
        invariant
            i <= nodes@.len(),
            acc == edge_count_sum(nodes@, i as int),
            edge_count_sum(nodes@, nodes@.len() as int) == total,
            offsets@.len() == i,
            forall|k: int| 0 <= k < i ==> (#[trigger] offsets@[k] as int) == edge_count_sum(
                nodes@, k),
        decreases nodes@.len() - i,
    {
        offsets.push(acc);
        proof {
            assert(edge_count_sum(nodes@, i + 1) == acc + nodes@[i as int].edge_count);
            lemma_edge_count_sum_monotone(nodes@, i + 1, nodes@.len() as int);
        }
        acc = acc + (nodes[i].edge_count as usize);
        i = i + 1;
    }
    offsets
}

/// Decode a complete snapshot buffer into a store.
///
/// Succeeds exactly on the buffers the grammar `spec_decode` accepts, and
/// then returns the store the grammar describes. A zero-length buffer is
/// rejected as `Empty`; every other rejected buffer is `Malformed` (wrong
/// section sizes, truncated data, out-of-range indices, duplicate ids, or
/// an edge-count header that does not match the node records).
pub fn decode(buffer: &Vec<u8>) -> (r: Result<SnapshotStore, DecodeError>)
    ensures
        r is Ok <==> spec_decode(buffer@) is Some,
        r matches Ok(store) ==> store.wf() && spec_decode(buffer@) == Some(store.model()),
        r matches Err(e) ==> (e == DecodeError::Empty <==> buffer@.len() == 0),
{
    if buffer.len() == 0 {
        assert(spec_decode(buffer@) is None);
        return Err(DecodeError::Empty);
    }
    let t1 = match parse_string_table(buffer, 0) {
        Some(t) => t,
        None => {
            return Err(DecodeError::Malformed);
        },
    };
    let (node_types, p1) = t1;
    let t2 = match parse_string_table(buffer, p1) {
        Some(t) => t,
        None => {
            return Err(DecodeError::Malformed);
        },
    };
    let (edge_types, p2) = t2;
    let t3 = match parse_string_table(buffer, p2) {
        Some(t) => t,
        None => {
            return Err(DecodeError::Malformed);
        },
    };
    let (strings, p3) = t3;
    let ghost tm1 = table_model(node_types@);
    let ghost tm2 = table_model(edge_types@);
    let ghost tm3 = table_model(strings@);
    assert(spec_decode(buffer@) == parse_body(buffer@, p3 as int, tm1, tm2, tm3));
    if buffer.len() - p3 < 4 {
        return Err(DecodeError::Malformed);
    }
    let ncount = read_u32_at(buffer, p3) as usize;
    let t4 = match parse_node_records(buffer, p3 + 4, ncount) {
        Some(t) => t,
        None => {
            assert(parse_body(buffer@, p3 as int, tm1, tm2, tm3) is None);
            return Err(DecodeError::Malformed);
        },
    };
    let (nodes, p4) = t4;
    if buffer.len() - p4 < 4 {
        assert(parse_body(buffer@, p3 as int, tm1, tm2, tm3) is None);
        return Err(DecodeError::Malformed);
    }
    let ecount = read_u32_at(buffer, p4) as usize;
    let t5 = match parse_edge_records(buffer, p4 + 4, ecount) {
        Some(t) => t,
        None => {
            assert(parse_body(buffer@, p3 as int, tm1, tm2, tm3) is None);
            return Err(DecodeError::Malformed);
        },
    };
    let (edges, p5) = t5;
    if p5 != buffer.len() {
        assert(parse_body(buffer@, p3 as int, tm1, tm2, tm3) is None);
        return Err(DecodeError::Malformed);
    }
    let ghost m = StoreModel {
        node_types: tm1,
        edge_types: tm2,
        strings: tm3,
        nodes: nodes@,
        edges: edges@,
    };
    assert(parse_body(buffer@, p3 as int, tm1, tm2, tm3) == if model_wf(m) {
        Some(m)
    } else {
        None::<StoreModel>
    });
    if !check_node_refs(&nodes, node_types.len(), strings.len()) {
        assert(!model_wf(m));
        return Err(DecodeError::Malformed);
    }
    if !check_edge_refs(&edges, edge_types.len(), nodes.len()) {
        assert(!model_wf(m));
        return Err(DecodeError::Malformed);
    }
    if !check_ids_unique(&nodes) {
        assert(!model_wf(m));
        return Err(DecodeError::Malformed);
    }
    if !sum_matches(&nodes, edges.len()) {
        assert(!model_wf(m));
        return Err(DecodeError::Malformed);
    }
    assert(model_wf(m)) by {
        assert(tm1.len() == node_types@.len());
        assert(tm2.len() == edge_types@.len());
        assert(tm3.len() == strings@.len());
    }
    let total = edges.len();
    let edge_offsets = build_offsets(&nodes, total);
    let store = SnapshotStore { node_types, edge_types, strings, nodes, edges, edge_offsets };
    proof {
        assert(store.model() =~= m);
    }
    Ok(store)
}

} // verus!
