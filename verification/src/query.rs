//! Node queries over a decoded store: structured filtering and
//! duplicate-string detection.
//!
//! Both queries select node-table indices in table order (strictly
//! increasing), so their results are deterministic. The duplicate-string
//! finder keeps string-typed nodes whose value passes the length,
//! exclude-substring and include-substring filters and whose value occurs,
//! among the nodes passing those filters, strictly more often than the
//! condition's threshold.

use vstd::prelude::*;

use crate::bytes::{bytes_eq, contains_bytes, copy_bytes, is_substring};
use crate::tables::SnapshotStore;

verus! {

broadcast use vstd::seq_lib::lemma_seq_contains_after_push;

/// A structured node filter: every given field must hold of a node for it
/// to match.
pub struct FilterCondition {
    /// Match the node with exactly this id.
    pub node_id: Option<u32>,
    /// Match nodes whose type name equals these bytes.
    pub node_type_name: Option<Vec<u8>>,
    /// Match nodes whose display name contains these bytes.
    pub name_contains: Option<Vec<u8>>,
    /// Match nodes of at least this shallow size.
    pub min_self_size: Option<u32>,
}

/// The duplicate-string query condition.
pub struct SameStringCondition {
    /// Discard string values of fewer Unicode characters than this.
    pub minimum_string_len: usize,
    /// Discard a value containing any of these substrings.
    pub excludes: Vec<Vec<u8>>,
    /// When non-empty, keep only values containing at least one of these
    /// substrings.
    pub includes: Vec<Vec<u8>>,
    /// Keep only values occurring strictly more often than this.
    pub more_than_same_times: usize,
}

/// The type name designating string-bearing nodes: the bytes of "string".
pub open spec fn string_type_tag() -> Seq<u8> {
    seq![115u8, 116u8, 114u8, 105u8, 110u8, 103u8]
}

/// A UTF-8 continuation byte (high bits `10`): every byte of an encoded
/// character but its first.
pub open spec fn is_continuation_byte(b: u8) -> bool {
    128 <= b < 192
}

/// Number of characters among the first `upto` bytes of a UTF-8 string:
/// each character contributes exactly one non-continuation byte.
pub open spec fn char_count_upto(v: Seq<u8>, upto: int) -> int
    decreases upto,
{
    if upto <= 0 {
        0
    } else {
        char_count_upto(v, upto - 1) + if is_continuation_byte(v[upto - 1]) {
            0int
        } else {
            1int
        }
    }
}

/// The character count of a UTF-8 string held as bytes.
pub open spec fn char_count(v: Seq<u8>) -> int {
    char_count_upto(v, v.len() as int)
}

/// Node `i`'s resolved display name (for string nodes, its value).
pub open spec fn node_name(s: SnapshotStore, i: int) -> Seq<u8> {
    s.strings@[s.nodes@[i].name_ref as int]@
}

/// Node `i`'s resolved type name.
pub open spec fn node_type_name_of(s: SnapshotStore, i: int) -> Seq<u8> {
    s.node_types@[s.nodes@[i].node_type as int]@
}

/// Node `i` is a string-bearing node: its type is the designated string
/// type, so its name is its string value.
pub open spec fn is_string_node(s: SnapshotStore, i: int) -> bool {
    node_type_name_of(s, i) == string_type_tag()
}

/// Node `i` satisfies every given field of the filter condition.
pub open spec fn node_matches(s: SnapshotStore, i: int, c: FilterCondition) -> bool {
    &&& match c.node_id {
        Some(id) => s.nodes@[i].id == id,
        None => true,
    }
    &&& match c.node_type_name {
        Some(t) => node_type_name_of(s, i) == t@,
        None => true,
    }
    &&& match c.name_contains {
        Some(sub) => is_substring(node_name(s, i), sub@),
        None => true,
    }
    &&& match c.min_self_size {
        Some(m) => s.nodes@[i].self_size >= m,
        None => true,
    }
}

/// Node `i` survives the duplicate-string pre-filters: string-typed, long
/// enough, no excluded substring, and (when includes are given) at least
/// one included substring.
pub open spec fn passes_filters(s: SnapshotStore, i: int, c: SameStringCondition) -> bool {
    &&& is_string_node(s, i)
    &&& char_count(node_name(s, i)) >= c.minimum_string_len
    &&& forall|k: int|
        0 <= k < c.excludes@.len() ==> !is_substring(node_name(s, i), (#[trigger] c.excludes@[k])@)
    &&& (c.includes@.len() == 0 || exists|k: int|
        0 <= k < c.includes@.len() && is_substring(node_name(s, i), (#[trigger] c.includes@[k])@))
}

/// Among the first `upto` nodes, how many pass the pre-filters with string
/// value exactly `v`.
pub open spec fn eligible_count(s: SnapshotStore, c: SameStringCondition, v: Seq<u8>, upto: int) -> int
    decreases upto,
{
    if upto <= 0 {
        0
    } else {
        eligible_count(s, c, v, upto - 1) + if passes_filters(s, upto - 1, c) && node_name(
            s, upto - 1) == v {
            1int
        } else {
            0int
        }
    }
}

/// Node `i` belongs to the duplicate-string root set: it passes the
/// pre-filters and its value occurs more than `more_than_same_times` times
/// among the nodes passing them.
pub open spec fn is_duplicate_root(s: SnapshotStore, c: SameStringCondition, i: int) -> bool {
    &&& 0 <= i < s.nodes@.len()
    &&& passes_filters(s, i, c)
    &&& eligible_count(s, c, node_name(s, i), s.nodes@.len() as int) > c.more_than_same_times
}

/// Count the characters of a UTF-8 string held as bytes.
fn count_chars(v: &Vec<u8>) -> (r: usize)
    ensures
        r == char_count(v@),
{
    let mut acc: usize = 0;
    let mut i: usize = 0;
    while i < v.len()
        invariant
            i <= v@.len(),
            acc <= i,
            acc == char_count_upto(v@, i as int),
        decreases v@.len() - i,
    {
        let b = v[i];
        if b < 128 || b >= 192 {
            acc = acc + 1;
        }
        i = i + 1;
    }
    acc
}

/// The designated string-type name as a byte vector.
fn string_tag() -> (r: Vec<u8>)
    ensures
        r@ == string_type_tag(),
{
    let mut r: Vec<u8> = Vec::new();
    r.push(115);
    r.push(116);
    r.push(114);
    r.push(105);
    r.push(110);
    r.push(103);
    proof {
        assert(r@ =~= string_type_tag());
    }
    r
}

/// Evaluate the filter condition on node `i`.
fn matches_node(store: &SnapshotStore, i: usize, cond: &FilterCondition) -> (r: bool)
    requires
        store.wf(),
        (i as int) < store.nodes@.len(),
    ensures
        r == node_matches(*store, i as int, *cond),
{
    let node = store.nodes[i];
    match &cond.node_id {
        Some(id) => {
            if node.id != *id {
                return false;
            }
        },
        None => {},
    }
    match &cond.node_type_name {
        Some(t) => {
            if !bytes_eq(&store.node_types[node.node_type as usize], t) {
                return false;
            }
        },
        None => {},
    }
    match &cond.name_contains {
        Some(sub) => {
            if !contains_bytes(&store.strings[node.name_ref as usize], sub) {
                return false;
            }
        },
        None => {},
    }
    match &cond.min_self_size {
        Some(m) => {
            if node.self_size < *m {
                return false;
            }
        },
        None => {},
    }
    true
}

/// Select the nodes matching a filter condition, in table order.
pub fn filter_nodes(store: &SnapshotStore, cond: &FilterCondition) -> (r: Vec<usize>)
    requires
        store.wf(),
    ensures
        forall|k: int|
            0 <= k < r@.len() ==> (#[trigger] r@[k] as int) < store.nodes@.len() && node_matches(
                *store, r@[k] as int, *cond),
        forall|i: int|
            0 <= i < store.nodes@.len() && #[trigger] node_matches(*store, i, *cond)
                ==> r@.contains(i as usize),
        forall|k1: int, k2: int| 0 <= k1 < k2 < r@.len() ==> r@[k1] < r@[k2],
{
    let mut r: Vec<usize> = Vec::new();
    let mut i: usize = 0;
    while i < store.nodes.len()
        invariant
            store.wf(),
            i <= store.nodes@.len(),
            forall|k: int|
                0 <= k < r@.len() ==> (#[trigger] r@[k] as int) < i && node_matches(
                    *store, r@[k] as int, *cond),
            forall|j: int|
                0 <= j < i && #[trigger] node_matches(*store, j, *cond) ==> r@.contains(j as usize),
            forall|k1: int, k2: int| 0 <= k1 < k2 < r@.len() ==> r@[k1] < r@[k2],
        decreases store.nodes@.len() - i,
    {
        if matches_node(store, i, cond) {
            r.push(i);
        }
        i = i + 1;
    }
    r
}

/// Evaluate the duplicate-string pre-filters on node `i`.
fn passes_node(store: &SnapshotStore, i: usize, cond: &SameStringCondition) -> (r: bool)
    requires
        store.wf(),
        (i as int) < store.nodes@.len(),
    ensures
        r == passes_filters(*store, i as int, *cond),
{
    let node = store.nodes[i];
    let tag = string_tag();
    if !bytes_eq(&store.node_types[node.node_type as usize], &tag) {
        return false;
    }
    let value = &store.strings[node.name_ref as usize];
    if count_chars(value) < cond.minimum_string_len {
        return false;
    }
    let mut k: usize = 0;
    while k < cond.excludes.len()
        invariant
            store.wf(),
            (i as int) < store.nodes@.len(),
            k <= cond.excludes@.len(),
            value == &store.strings[store.nodes@[i as int].name_ref as int],
            forall|m: int|
                0 <= m < k ==> !is_substring(node_name(*store, i as int), (
                #[trigger] cond.excludes@[m])@),
        decreases cond.excludes@.len() - k,
    {
        if contains_bytes(value, &cond.excludes[k]) {
            return false;
        }
        k = k + 1;
    }
    if cond.includes.len() == 0 {
        return true;
    }
    let mut k: usize = 0;
    while k < cond.includes.len()
        invariant
            store.wf(),
            (i as int) < store.nodes@.len(),
            k <= cond.includes@.len(),
            value == &store.strings[store.nodes@[i as int].name_ref as int],
            forall|m: int|
                0 <= m < k ==> !is_substring(node_name(*store, i as int), (
                #[trigger] cond.includes@[m])@),
            forall|m: int|
                0 <= m < cond.excludes@.len() ==> !is_substring(node_name(*store, i as int), (
                #[trigger] cond.excludes@[m])@),
            is_string_node(*store, i as int),
            char_count(node_name(*store, i as int)) >= cond.minimum_string_len,
        decreases cond.includes@.len() - k,
    {
        if contains_bytes(value, &cond.includes[k]) {
            return true;
        }
        k = k + 1;
    }
    false
}

/// Count, over the whole node table, the nodes passing the pre-filters
/// whose string value is exactly `v`.
fn count_value(store: &SnapshotStore, cond: &SameStringCondition, v: &Vec<u8>) -> (r: usize)
    requires
        store.wf(),
    ensures
        r == eligible_count(*store, *cond, v@, store.nodes@.len() as int),
{
    let mut acc: usize = 0;
    let mut j: usize = 0;
    while j < store.nodes.len()
        invariant
            store.wf(),
            j <= store.nodes@.len(),
            acc <= j,
            acc == eligible_count(*store, *cond, v@, j as int),
        decreases store.nodes@.len() - j,
    {
        if passes_node(store, j, cond) {
            let node = store.nodes[j];
            if bytes_eq(&store.strings[node.name_ref as usize], v) {
                acc = acc + 1;
            }
        }
        j = j + 1;
    }
    acc
}

/// Select the duplicate-string root nodes, in table order: the nodes whose
/// string value passes the pre-filters and repeats strictly more than
/// `more_than_same_times` times among passing nodes.
pub fn same_string_roots(store: &SnapshotStore, cond: &SameStringCondition) -> (r: Vec<usize>)
    requires
        store.wf(),
    ensures
        forall|k: int|
            0 <= k < r@.len() ==> is_duplicate_root(*store, *cond, #[trigger] r@[k] as int),
        forall|i: int|
            #[trigger] is_duplicate_root(*store, *cond, i) ==> r@.contains(i as usize),
        forall|k1: int, k2: int| 0 <= k1 < k2 < r@.len() ==> r@[k1] < r@[k2],
{
    let mut r: Vec<usize> = Vec::new();
    let mut i: usize = 0;
    while i < store.nodes.len()
        invariant
            store.wf(),
            i <= store.nodes@.len(),
            forall|k: int|
                0 <= k < r@.len() ==> (#[trigger] r@[k] as int) < i && is_duplicate_root(
                    *store, *cond, r@[k] as int),
            forall|j: int|
                0 <= j < i && #[trigger] is_duplicate_root(*store, *cond, j) ==> r@.contains(
                    j as usize),
            forall|k1: int, k2: int| 0 <= k1 < k2 < r@.len() ==> r@[k1] < r@[k2],
        decreases store.nodes@.len() - i,
    {
        if passes_node(store, i, cond) {
            let node = store.nodes[i];
            let value = copy_bytes(&store.strings[node.name_ref as usize]);
            let cnt = count_value(store, cond, &value);
            if cnt > cond.more_than_same_times {
                r.push(i);
            }
        }
        i = i + 1;
    }
    r
}

} // verus!
