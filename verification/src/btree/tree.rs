//! The B-tree over nodes: insert, lookup, delete and range scan.
//!
//! Nodes live in a vector indexed by page id. Lookups descend from the root
//! by comparing the key with each internal node's separators. A full leaf is
//! split in two, and the split propagates upward through full internal nodes,
//! growing a new root when the old root splits.
//!
//! The proofs keep, as ghost state, the key range that each node is
//! responsible for, the parent of each node, the leaf that owns each key, and
//! the map from keys to entries that the tree represents.

use vstd::prelude::*;
use crate::btree::node::{
    BlobPointer, InsertError, Node, NodeView, PageType, SlotView, SplitError, ValueRef,
    key_index, node_wf, rank, route_child, sorted, is_child, lemma_rank_sorted,
    lemma_rank_unique, NODE_CAPACITY,
};
use crate::codec::copy_range;
use crate::btree::order::{
    lex_lt, lex_le, bytes_lt, lemma_lex_irreflexive, lemma_lex_transitive, lemma_lex_total,
    lemma_lex_le_lt,
};

verus! {

/// Page id of a node (its index in the node store).
pub type PageId = u32;

/// The half-open key range `[lo, hi)` a node is responsible for; a missing
/// bound is unbounded.
pub struct KeyRange {
    /// Inclusive lower bound.
    pub lo: Option<Seq<u8>>,
    /// Exclusive upper bound.
    pub hi: Option<Seq<u8>>,
}

/// The range of all keys.
pub open spec fn unbounded() -> KeyRange {
    KeyRange { lo: None, hi: None }
}

/// Whether `k` is not below the range's lower bound.
pub open spec fn above_lo(r: KeyRange, k: Seq<u8>) -> bool {
    match r.lo {
        Some(l) => lex_le(l, k),
        None => true,
    }
}

/// Whether `k` is strictly above the range's lower bound.
pub open spec fn strictly_above_lo(r: KeyRange, k: Seq<u8>) -> bool {
    match r.lo {
        Some(l) => lex_lt(l, k),
        None => true,
    }
}

/// Whether `k` is below the range's upper bound.
pub open spec fn below_hi(r: KeyRange, k: Seq<u8>) -> bool {
    match r.hi {
        Some(h) => lex_lt(k, h),
        None => true,
    }
}

/// Whether `k` lies in the range.
pub open spec fn in_range(r: KeyRange, k: Seq<u8>) -> bool {
    above_lo(r, k) && below_hi(r, k)
}

/// Child `j` of an internal node: `-1` is the leftmost child, `j >= 0` the
/// child stored with separator `j`.
pub open spec fn child_of(n: NodeView, j: int) -> int {
    if j < 0 {
        n.leftmost_child as int
    } else {
        n.slots[j]->Child_0 as int
    }
}

/// The range of child `j` of an internal node whose own range is `r`.
pub open spec fn child_range(n: NodeView, r: KeyRange, j: int) -> KeyRange {
    KeyRange {
        lo: if j < 0 { r.lo } else { Some(n.keys[j]) },
        hi: if j + 1 < n.keys.len() { Some(n.keys[j + 1]) } else { r.hi },
    }
}

/// The entry a node holds for `k`, if any.
pub open spec fn lookup_in(n: NodeView, k: Seq<u8>) -> Option<SlotView> {
    match key_index(n.keys, k) {
        Some(t) => Some(n.slots[t]),
        None => None,
    }
}

/// The entry a map holds for `k`, if any.
pub open spec fn map_get(m: Map<Seq<u8>, SlotView>, k: Seq<u8>) -> Option<SlotView> {
    if m.dom().contains(k) {
        Some(m[k])
    } else {
        None
    }
}

/// Whether a node is internal.
pub open spec fn is_internal(n: NodeView) -> bool {
    n.page_type == PageType::Internal
}

/// Page ids are valid, nodes are well-formed, and every child of an internal
/// node exists one level below it.
pub open spec fn structure_ok(nv: Seq<NodeView>, root: int) -> bool {
    &&& 0 < nv.len() < u32::MAX
    &&& 0 <= root < nv.len()
    &&& forall|i: int| 0 <= i < nv.len() ==> node_wf(#[trigger] nv[i])
    &&& forall|i: int, j: int|
        0 <= i < nv.len() && is_internal(nv[i]) && -1 <= j < nv[i].keys.len() ==> {
            let c = #[trigger] child_of(nv[i], j);
            0 <= c < nv.len() && nv[c].level + 1 == nv[i].level
        }
}

/// Every node's keys lie in its range (strictly above the lower bound in
/// internal nodes); every child's range and parent are those its parent
/// gives it; the root covers all keys and has no parent.
pub open spec fn ranges_ok(nv: Seq<NodeView>, root: int, bnd: Seq<KeyRange>, par: Seq<int>) -> bool {
    &&& bnd.len() == nv.len()
    &&& par.len() == nv.len()
    &&& bnd[root] == unbounded()
    &&& par[root] == -1
    &&& keys_in_ranges(nv, bnd)
    &&& children_ok(nv, bnd, par, -1, -1)
}

/// Every child of an internal node, except child `ja` of node `p`, has the
/// range and the parent that node gives it.
pub open spec fn children_ok(nv: Seq<NodeView>, bnd: Seq<KeyRange>, par: Seq<int>, p: int, ja: int) -> bool {
    forall|i: int, j: int|
        0 <= i < nv.len() && is_internal(nv[i]) && -1 <= j < nv[i].keys.len() && !(i == p && j == ja) ==> {
            &&& bnd[#[trigger] child_of(nv[i], j)] == child_range(nv[i], bnd[i], j)
            &&& par[child_of(nv[i], j)] == i
        }
}

/// Every node's keys lie in its range, strictly above the lower bound in
/// internal nodes.
pub open spec fn keys_in_ranges(nv: Seq<NodeView>, bnd: Seq<KeyRange>) -> bool {
    forall|i: int, t: int|
        0 <= i < nv.len() && 0 <= t < nv[i].keys.len() ==> {
            &&& in_range(bnd[i], #[trigger] nv[i].keys[t])
            &&& is_internal(nv[i]) ==> strictly_above_lo(bnd[i], nv[i].keys[t])
        }
}

/// Each key in a leaf's range is owned by that leaf, and the leaf holds for
/// it exactly the map's entry; the map holds no child pointers.
pub open spec fn leaves_ok(
    nv: Seq<NodeView>,
    bnd: Seq<KeyRange>,
    owner: spec_fn(Seq<u8>) -> int,
    m: Map<Seq<u8>, SlotView>,
) -> bool {
    &&& forall|k: Seq<u8>| m.dom().contains(k) ==> !(#[trigger] m[k] is Child)
    &&& forall|i: int, k: Seq<u8>|
        0 <= i < nv.len() && !is_internal(nv[i]) && #[trigger] in_range(bnd[i], k) ==> {
            &&& owner(k) == i
            &&& lookup_in(nv[i], k) == map_get(m, k)
        }
}

/// The leaf reached from node `id` by following, at each internal node, the
/// child whose separators bracket `k`.
pub open spec fn leaf_for(nv: Seq<NodeView>, id: int, k: Seq<u8>) -> int
    decreases nv[id].level,
{
    if 0 <= id < nv.len() && is_internal(nv[id]) {
        let c = route_child(nv[id], k) as int;
        if 0 <= c < nv.len() && nv[c].level < nv[id].level {
            leaf_for(nv, c, k)
        } else {
            id
        }
    } else {
        id
    }
}

/// Lemma: in a sorted node, `key_index` finds the position of a present key.
pub proof fn lemma_key_index_at(keys: Seq<Seq<u8>>, t: int)
    requires
        sorted(keys),
        0 <= t < keys.len(),
    ensures
        key_index(keys, keys[t]) == Some(t),
{
    let k = keys[t];
    assert(exists|i: int| 0 <= i < keys.len() && keys[i] == k);
    let c = key_index(keys, k)->0;
    assert(0 <= c < keys.len() && keys[c] == k);
    if c < t {
        assert(lex_lt(keys[c], keys[t]));
        lemma_lex_irreflexive(k);
    } else if c > t {
        assert(lex_lt(keys[t], keys[c]));
        lemma_lex_irreflexive(k);
    }
}

/// Lemma: an internal node routes a key of its range to the child whose
/// range holds the key.
pub proof fn lemma_route(nv: Seq<NodeView>, root: int, bnd: Seq<KeyRange>, par: Seq<int>, i: int, k: Seq<u8>)
    requires
        structure_ok(nv, root),
        ranges_ok(nv, root, bnd, par),
        0 <= i < nv.len(),
        is_internal(nv[i]),
        in_range(bnd[i], k),
    ensures
        0 <= rank(nv[i].keys, k) <= nv[i].keys.len(),
        route_child(nv[i], k) as int == child_of(nv[i], rank(nv[i].keys, k) - 1),
        0 <= route_child(nv[i], k) < nv.len(),
        nv[route_child(nv[i], k) as int].level + 1 == nv[i].level,
        in_range(bnd[route_child(nv[i], k) as int], k),
{
    let n = nv[i];
    assert(node_wf(n));
    lemma_rank_sorted(n.keys, k);
    let r = rank(n.keys, k);
    let j = r - 1;
    let c = child_of(n, j);
    assert(-1 <= j < n.keys.len());
    if j >= 0 {
        assert(is_child(n.slots[j]));
    }
    assert(bnd[c] == child_range(n, bnd[i], j));
    if j >= 0 {
        assert(!lex_lt(k, n.keys[j]));
        lemma_lex_total(n.keys[j], k);
    }
}

/// Lemma: descending from a node whose range holds `k` reaches a leaf whose
/// range holds `k`.
pub proof fn lemma_leaf_for(nv: Seq<NodeView>, root: int, bnd: Seq<KeyRange>, par: Seq<int>, id: int, k: Seq<u8>)
    requires
        structure_ok(nv, root),
        ranges_ok(nv, root, bnd, par),
        0 <= id < nv.len(),
        in_range(bnd[id], k),
    ensures
        0 <= leaf_for(nv, id, k) < nv.len(),
        !is_internal(nv[leaf_for(nv, id, k)]),
        in_range(bnd[leaf_for(nv, id, k)], k),
    decreases nv[id].level,
{
    assert(node_wf(nv[id]));
    if is_internal(nv[id]) {
        lemma_route(nv, root, bnd, par, id, k);
        let c = route_child(nv[id], k) as int;
        lemma_leaf_for(nv, root, bnd, par, c, k);
    }
}

/// Lemma: replacing one leaf by a leaf of the same range that holds exactly
/// the new map's entries of that range keeps the tree well-formed, when the
/// new map differs from the old one only inside that range.
pub proof fn lemma_replace_leaf(
    nv: Seq<NodeView>,
    root: int,
    bnd: Seq<KeyRange>,
    par: Seq<int>,
    owner: spec_fn(Seq<u8>) -> int,
    m: Map<Seq<u8>, SlotView>,
    l: int,
    n2: NodeView,
    m2: Map<Seq<u8>, SlotView>,
)
    requires
        structure_ok(nv, root),
        ranges_ok(nv, root, bnd, par),
        leaves_ok(nv, bnd, owner, m),
        0 <= l < nv.len(),
        !is_internal(nv[l]),
        node_wf(n2),
        n2.page_type == PageType::Leaf,
        n2.level == nv[l].level,
        forall|t: int| 0 <= t < n2.keys.len() ==> in_range(bnd[l], #[trigger] n2.keys[t]),
        forall|k: Seq<u8>| #[trigger] in_range(bnd[l], k) ==> lookup_in(n2, k) == map_get(m2, k),
        forall|k: Seq<u8>| !in_range(bnd[l], k) ==> #[trigger] map_get(m2, k) == map_get(m, k),
        forall|k: Seq<u8>| m2.dom().contains(k) ==> !(#[trigger] m2[k] is Child),
    ensures
        structure_ok(nv.update(l, n2), root),
        ranges_ok(nv.update(l, n2), root, bnd, par),
        leaves_ok(nv.update(l, n2), bnd, owner, m2),
{
    let nv2 = nv.update(l, n2);
    assert forall|i: int| 0 <= i < nv2.len() implies node_wf(#[trigger] nv2[i]) by {
        if i != l {
            assert(nv2[i] == nv[i]);
        }
    }
    assert forall|i: int, j: int|
        0 <= i < nv2.len() && is_internal(nv2[i]) && -1 <= j < nv2[i].keys.len() implies {
            let c = #[trigger] child_of(nv2[i], j);
            0 <= c < nv2.len() && nv2[c].level + 1 == nv2[i].level
        } by {
        assert(i != l);
        assert(nv2[i] == nv[i]);
        let c = child_of(nv[i], j);
        assert(0 <= c < nv.len() && nv[c].level + 1 == nv[i].level);
    }
    assert forall|i: int, t: int| 0 <= i < nv2.len() && 0 <= t < nv2[i].keys.len() implies {
        &&& in_range(bnd[i], #[trigger] nv2[i].keys[t])
        &&& is_internal(nv2[i]) ==> strictly_above_lo(bnd[i], nv2[i].keys[t])
    } by {
        if i != l {
            assert(nv2[i] == nv[i]);
        }
    }
    assert forall|i: int, j: int|
        0 <= i < nv2.len() && is_internal(nv2[i]) && -1 <= j < nv2[i].keys.len() && !(i == -1 && j == -1) implies {
            &&& bnd[#[trigger] child_of(nv2[i], j)] == child_range(nv2[i], bnd[i], j)
            &&& par[child_of(nv2[i], j)] == i
        } by {
        assert(i != l);
        assert(nv2[i] == nv[i]);
    }
    assert forall|i: int, k: Seq<u8>|
        0 <= i < nv2.len() && !is_internal(nv2[i]) && #[trigger] in_range(bnd[i], k) implies {
            &&& owner(k) == i
            &&& lookup_in(nv2[i], k) == map_get(m2, k)
        } by {
        if i != l {
            assert(nv2[i] == nv[i]);
            assert(owner(k) == i);
            if in_range(bnd[l], k) {
                assert(owner(k) == l);
            }
            assert(map_get(m2, k) == map_get(m, k));
        } else {
            assert(owner(k) == l);
        }
    }
}

/// `path[0..=upto]` is the descent from the root towards `key`'s leaf: each
/// entry exists, sits one level below the previous one, and is the child the
/// previous (internal) node routes `key` to.
pub open spec fn path_ok(nv: Seq<NodeView>, root: int, path: Seq<u32>, upto: int, key: Seq<u8>) -> bool {
    &&& 0 <= upto < path.len()
    &&& path[0] as int == root
    &&& forall|t: int|
        0 <= t <= upto ==> (#[trigger] path[t]) < nv.len() && nv[path[t] as int].level + t == nv[root].level
    &&& forall|t: int|
        0 <= t < upto ==> is_internal(nv[(#[trigger] path[t]) as int]) && path[t + 1] as int
            == route_child(nv[path[t] as int], key) as int
}

/// The state in the middle of an insertion: node `a = path[a_idx]` has just
/// been split around separator `sep` into itself and the new node `b`, and
/// the ranges and parents already describe the finished split, but `a`'s
/// parent does not yet hold `sep` and `b` (for the root: there is no parent
/// yet). Everything else is as in a well-formed tree.
pub open spec fn pending(
    nv: Seq<NodeView>,
    root: int,
    bnd: Seq<KeyRange>,
    par: Seq<int>,
    owner: spec_fn(Seq<u8>) -> int,
    m: Map<Seq<u8>, SlotView>,
    path: Seq<u32>,
    a_idx: int,
    key: Seq<u8>,
    sep: Seq<u8>,
    b: int,
) -> bool {
    let a = path[a_idx] as int;
    &&& structure_ok(nv, root)
    &&& path_ok(nv, root, path, a_idx, key)
    &&& nv.len() + a_idx + 1 < u32::MAX
    &&& nv[root].level + 1 < u32::MAX
    &&& bnd.len() == nv.len()
    &&& par.len() == nv.len()
    &&& keys_in_ranges(nv, bnd)
    &&& par[root] == -1
    &&& 0 <= b < nv.len()
    &&& b != root
    &&& b != a
    &&& nv[b].level == nv[a].level
    &&& nv[b].page_type == nv[a].page_type
    &&& forall|i: int, j: int|
        0 <= i < nv.len() && is_internal(nv[i]) && -1 <= j < nv[i].keys.len() ==> #[trigger] child_of(nv[i], j) != b
    &&& if a_idx == 0 {
        &&& a == root
        &&& bnd[a] == KeyRange { lo: None, hi: Some(sep) }
        &&& bnd[b] == KeyRange { lo: Some(sep), hi: None }
        &&& par[b] == -1
        &&& children_ok(nv, bnd, par, -1, -1)
    } else {
        let p = path[a_idx - 1] as int;
        let ja = rank(nv[p].keys, key) - 1;
        let d = child_range(nv[p], bnd[p], ja);
        &&& bnd[root] == unbounded()
        &&& children_ok(nv, bnd, par, p, ja)
        &&& par[a] == p
        &&& par[b] == p
        &&& bnd[a] == KeyRange { lo: d.lo, hi: Some(sep) }
        &&& bnd[b] == KeyRange { lo: Some(sep), hi: d.hi }
        &&& strictly_above_lo(d, sep)
        &&& below_hi(d, sep)
    }
    &&& leaves_ok(nv, bnd, owner, m)
}

/// Lemma: an internal node routes `k` to child `rank - 1`, whose range within
/// the node's range `r` holds `k` when `r` does.
pub proof fn lemma_route_child_of(n: NodeView, k: Seq<u8>, r: KeyRange)
    requires
        node_wf(n),
        is_internal(n),
    ensures
        -1 <= rank(n.keys, k) - 1 < n.keys.len(),
        route_child(n, k) as int == child_of(n, rank(n.keys, k) - 1),
        in_range(r, k) ==> in_range(child_range(n, r, rank(n.keys, k) - 1), k),
{
    lemma_rank_sorted(n.keys, k);
    let j = rank(n.keys, k) - 1;
    if j >= 0 {
        assert(is_child(n.slots[j]));
        assert(!lex_lt(k, n.keys[j]));
        lemma_lex_total(n.keys[j], k);
    }
}

/// Lemma: a separator strictly inside the range of child `ja` of a sorted
/// internal node is absent from it and is inserted right after position `ja`.
pub proof fn lemma_sep_position(n: NodeView, r: KeyRange, ja: int, sep: Seq<u8>)
    requires
        node_wf(n),
        -1 <= ja < n.keys.len(),
        strictly_above_lo(child_range(n, r, ja), sep),
        below_hi(child_range(n, r, ja), sep),
    ensures
        rank(n.keys, sep) == ja + 1,
        key_index(n.keys, sep) is None,
{
    let keys = n.keys;
    assert forall|t: int| 0 <= t <= ja implies lex_lt(#[trigger] keys[t], sep) by {
        if t < ja {
            lemma_lex_transitive(keys[t], keys[ja], sep);
        }
    }
    assert forall|t: int| ja + 1 <= t < keys.len() implies lex_lt(sep, #[trigger] keys[t]) by {
        if t > ja + 1 {
            lemma_lex_transitive(sep, keys[ja + 1], keys[t]);
        }
    }
    assert forall|t: int| 0 <= t < ja + 1 implies !lex_lt(sep, #[trigger] keys[t]) by {
        lemma_lex_total(keys[t], sep);
    }
    lemma_rank_unique(keys, sep, ja + 1);
    assert forall|t: int| 0 <= t < keys.len() implies keys[t] != sep by {
        lemma_lex_irreflexive(sep);
    }
}

/// Lemma: inserting the pending separator and new child into the parent
/// completes the split: the tree is well-formed again.
pub proof fn lemma_insert_separator(
    nv: Seq<NodeView>,
    root: int,
    bnd: Seq<KeyRange>,
    par: Seq<int>,
    owner: spec_fn(Seq<u8>) -> int,
    m: Map<Seq<u8>, SlotView>,
    path: Seq<u32>,
    a_idx: int,
    key: Seq<u8>,
    sep: Seq<u8>,
    b: int,
    p2: NodeView,
)
    requires
        pending(nv, root, bnd, par, owner, m, path, a_idx, key, sep, b),
        a_idx > 0,
        node_wf(p2),
        p2.page_type == nv[path[a_idx - 1] as int].page_type,
        p2.level == nv[path[a_idx - 1] as int].level,
        p2.leftmost_child == nv[path[a_idx - 1] as int].leftmost_child,
        p2.keys == nv[path[a_idx - 1] as int].keys.insert(rank(nv[path[a_idx - 1] as int].keys, sep), sep),
        p2.slots == nv[path[a_idx - 1] as int].slots.insert(
            rank(nv[path[a_idx - 1] as int].keys, sep),
            SlotView::Child(b as u64),
        ),
    ensures
        structure_ok(nv.update(path[a_idx - 1] as int, p2), root),
        ranges_ok(nv.update(path[a_idx - 1] as int, p2), root, bnd, par),
        leaves_ok(nv.update(path[a_idx - 1] as int, p2), bnd, owner, m),
{
    let p = path[a_idx - 1] as int;
    let a = path[a_idx] as int;
    let pn = nv[p];
    let ja = rank(pn.keys, key) - 1;
    let r = bnd[p];
    let d = child_range(pn, r, ja);
    let pos = ja + 1;
    let nv2 = nv.update(p, p2);
    assert(path[a_idx - 1] < nv.len());
    assert(is_internal(nv[path[a_idx - 1] as int]));
    assert(node_wf(pn));
    lemma_route_child_of(pn, key, r);
    assert(a == child_of(pn, ja));
    lemma_sep_position(pn, r, ja, sep);
    assert(b < nv.len());
    assert(b as u64 as int == b);
    // Children of the new parent, by position.
    assert forall|j: int| -1 <= j < p2.keys.len() implies #[trigger] child_of(p2, j) == (if j <= ja {
        child_of(pn, j)
    } else if j == pos {
        b
    } else {
        child_of(pn, j - 1)
    }) by {
        if 0 <= j <= ja {
            assert(p2.slots[j] == pn.slots[j]);
        } else if j > pos {
            assert(p2.slots[j] == pn.slots[j - 1]);
        }
    }
    assert forall|j: int| -1 <= j < p2.keys.len() implies #[trigger] child_range(p2, r, j) == (if j < ja {
        child_range(pn, r, j)
    } else if j == ja {
        KeyRange { lo: d.lo, hi: Some(sep) }
    } else if j == pos {
        KeyRange { lo: Some(sep), hi: d.hi }
    } else {
        child_range(pn, r, j - 1)
    }) by {
        if j >= 0 && j < pos {
            assert(p2.keys[j] == pn.keys[j]);
        }
        if j > pos {
            assert(p2.keys[j] == pn.keys[j - 1]);
        }
        if j + 1 < pos {
            assert(p2.keys[j + 1] == pn.keys[j + 1]);
        }
        if j + 1 > pos && j + 1 < p2.keys.len() {
            assert(p2.keys[j + 1] == pn.keys[j]);
        }
    }
    // Structure.
    assert forall|i: int| 0 <= i < nv2.len() implies node_wf(#[trigger] nv2[i]) by {
        if i != p {
            assert(nv2[i] == nv[i]);
        }
    }
    assert forall|i: int, j: int|
        0 <= i < nv2.len() && is_internal(nv2[i]) && -1 <= j < nv2[i].keys.len() implies {
            let c = #[trigger] child_of(nv2[i], j);
            0 <= c < nv2.len() && nv2[c].level + 1 == nv2[i].level
        } by {
        if i != p {
            assert(nv2[i] == nv[i]);
            let c = child_of(nv[i], j);
            assert(0 <= c < nv.len() && nv[c].level + 1 == nv[i].level);
            assert(c != p || nv2[c].level == nv[c].level);
        } else {
            let c = child_of(p2, j);
            if j <= ja {
                assert(0 <= child_of(pn, j) < nv.len() && nv[child_of(pn, j)].level + 1 == pn.level);
            } else if j > pos {
                assert(0 <= child_of(pn, j - 1) < nv.len() && nv[child_of(pn, j - 1)].level + 1 == pn.level);
            } else {
                assert(0 <= child_of(pn, ja) < nv.len() && nv[child_of(pn, ja)].level + 1 == pn.level);
            }
            assert(nv2[c].level == nv[c].level);
        }
    }
    // Keys within ranges.
    assert(in_range(r, sep) && strictly_above_lo(r, sep)) by {
        if ja >= 0 {
            assert(in_range(r, pn.keys[ja]) && strictly_above_lo(r, pn.keys[ja]));
            match r.lo {
                Some(lo) => {
                    lemma_lex_transitive(lo, pn.keys[ja], sep);
                },
                None => {},
            }
        }
        if ja + 1 < pn.keys.len() {
            assert(in_range(r, pn.keys[ja + 1]));
            match r.hi {
                Some(hi) => {
                    lemma_lex_transitive(sep, pn.keys[ja + 1], hi);
                },
                None => {},
            }
        }
    }
    assert forall|i: int, t: int| 0 <= i < nv2.len() && 0 <= t < nv2[i].keys.len() implies {
        &&& in_range(bnd[i], #[trigger] nv2[i].keys[t])
        &&& is_internal(nv2[i]) ==> strictly_above_lo(bnd[i], nv2[i].keys[t])
    } by {
        if i != p {
            assert(nv2[i] == nv[i]);
        } else if t < pos {
            assert(p2.keys[t] == pn.keys[t]);
        } else if t > pos {
            assert(p2.keys[t] == pn.keys[t - 1]);
        }
    }
    // Children ranges and parents.
    assert forall|i: int, j: int|
        0 <= i < nv2.len() && is_internal(nv2[i]) && -1 <= j < nv2[i].keys.len() && !(i == -1 && j == -1) implies {
            &&& bnd[#[trigger] child_of(nv2[i], j)] == child_range(nv2[i], bnd[i], j)
            &&& par[child_of(nv2[i], j)] == i
        } by {
        if i != p {
            assert(nv2[i] == nv[i]);
        } else {
            if j < ja {
                assert(bnd[child_of(pn, j)] == child_range(pn, r, j));
            } else if j > pos {
                assert(bnd[child_of(pn, j - 1)] == child_range(pn, r, j - 1));
            }
        }
    }
    // Leaves are unchanged.
    assert forall|i: int, k: Seq<u8>|
        0 <= i < nv2.len() && !is_internal(nv2[i]) && #[trigger] in_range(bnd[i], k) implies {
            &&& owner(k) == i
            &&& lookup_in(nv2[i], k) == map_get(m, k)
        } by {
        assert(i != p);
        assert(nv2[i] == nv[i]);
    }
}

/// Lemma: a run `[s, e)` of a sorted node that holds every occurrence of `k`
/// finds the same entry for `k` as the whole node.
pub proof fn lemma_lookup_subrange(n: NodeView, n2: NodeView, s: int, e: int, k: Seq<u8>)
    requires
        n.keys.len() == n.slots.len(),
        sorted(n.keys),
        0 <= s <= e <= n.keys.len(),
        n2.keys == n.keys.subrange(s, e),
        n2.slots == n.slots.subrange(s, e),
        forall|t: int| 0 <= t < n.keys.len() && #[trigger] n.keys[t] == k ==> s <= t < e,
    ensures
        lookup_in(n2, k) == lookup_in(n, k),
{
    assert(sorted(n2.keys)) by {
        assert forall|i: int, j: int| 0 <= i < j < n2.keys.len() implies lex_lt(#[trigger] n2.keys[i], #[trigger] n2.keys[j]) by {
            assert(n2.keys[i] == n.keys[s + i]);
            assert(n2.keys[j] == n.keys[s + j]);
        }
    }
    if exists|t: int| 0 <= t < n.keys.len() && n.keys[t] == k {
        let t = choose|t: int| 0 <= t < n.keys.len() && n.keys[t] == k;
        lemma_key_index_at(n.keys, t);
        assert(n2.keys[t - s] == n.keys[t]);
        lemma_key_index_at(n2.keys, t - s);
    } else {
        assert forall|t: int| 0 <= t < n2.keys.len() implies n2.keys[t] != k by {
            assert(n2.keys[t] == n.keys[s + t]);
        }
    }
}

/// Lemma: after inserting `key` with `slot` into a sorted node that lacks
/// it, the node holds `slot` for `key` and is unchanged for other keys.
pub proof fn lemma_lookup_insert(n: NodeView, n2: NodeView, pos: int, key: Seq<u8>, slot: SlotView, k: Seq<u8>)
    requires
        n.keys.len() == n.slots.len(),
        sorted(n.keys),
        sorted(n2.keys),
        0 <= pos <= n.keys.len(),
        key_index(n.keys, key) is None,
        n2.keys == n.keys.insert(pos, key),
        n2.slots == n.slots.insert(pos, slot),
    ensures
        lookup_in(n2, k) == (if k == key { Some(slot) } else { lookup_in(n, k) }),
{
    if k == key {
        assert(n2.keys[pos] == key);
        lemma_key_index_at(n2.keys, pos);
    } else if exists|t: int| 0 <= t < n.keys.len() && n.keys[t] == k {
        let t = choose|t: int| 0 <= t < n.keys.len() && n.keys[t] == k;
        lemma_key_index_at(n.keys, t);
        let t2 = if t < pos { t } else { t + 1 };
        assert(n2.keys[t2] == n.keys[t]);
        assert(n2.slots[t2] == n.slots[t]);
        lemma_key_index_at(n2.keys, t2);
    } else {
        assert forall|t: int| 0 <= t < n2.keys.len() implies n2.keys[t] != k by {
            if t < pos {
                assert(n2.keys[t] == n.keys[t]);
            } else if t > pos {
                assert(n2.keys[t] == n.keys[t - 1]);
            }
        }
    }
}

/// Lemma: the children of an internal node, whose keys lie strictly above
/// its lower bound, have pairwise different lower bounds.
pub proof fn lemma_child_lo_distinct(n: NodeView, r: KeyRange, j1: int, j2: int)
    requires
        node_wf(n),
        -1 <= j1 < j2 < n.keys.len(),
        forall|t: int| 0 <= t < n.keys.len() ==> strictly_above_lo(r, #[trigger] n.keys[t]),
    ensures
        child_range(n, r, j1).lo != child_range(n, r, j2).lo,
{
    lemma_lex_irreflexive(n.keys[j2]);
    if j1 >= 0 {
        assert(lex_lt(n.keys[j1], n.keys[j2]));
    } else {
        assert(strictly_above_lo(r, n.keys[j2]));
    }
}

/// Lemma: a node referenced from an internal node is referenced only there,
/// at a single position.
pub proof fn lemma_single_reference(
    nv: Seq<NodeView>,
    bnd: Seq<KeyRange>,
    par: Seq<int>,
    ep: int,
    ej: int,
    p: int,
    ja: int,
    i: int,
    j: int,
)
    requires
        keys_in_ranges(nv, bnd),
        forall|x: int| 0 <= x < nv.len() ==> node_wf(#[trigger] nv[x]),
        children_ok(nv, bnd, par, ep, ej),
        !(i == ep && j == ej) || (i == p && j == ja),
        0 <= p < nv.len(),
        is_internal(nv[p]),
        -1 <= ja < nv[p].keys.len(),
        par[child_of(nv[p], ja)] == p,
        bnd[child_of(nv[p], ja)] == child_range(nv[p], bnd[p], ja),
        0 <= i < nv.len(),
        is_internal(nv[i]),
        -1 <= j < nv[i].keys.len(),
        child_of(nv[i], j) == child_of(nv[p], ja),
    ensures
        i == p,
        j == ja,
{
    if !(i == p && j == ja) {
        assert(par[child_of(nv[i], j)] == i);
        assert(i == p);
        assert(bnd[child_of(nv[i], j)] == child_range(nv[i], bnd[i], j));
        assert forall|t: int| 0 <= t < nv[p].keys.len() implies strictly_above_lo(bnd[p], #[trigger] nv[p].keys[t]) by {
            assert(strictly_above_lo(bnd[p], nv[p].keys[t]));
        }
        if j < ja {
            lemma_child_lo_distinct(nv[p], bnd[p], j, ja);
        } else {
            lemma_child_lo_distinct(nv[p], bnd[p], ja, j);
        }
    }
}

/// The ranges after node `a` splits around `median` into itself (below) and
/// a new node (above), appended at the end.
pub open spec fn split_ranges(bnd: Seq<KeyRange>, a: int, median: Seq<u8>) -> Seq<KeyRange> {
    bnd.update(a, KeyRange { lo: bnd[a].lo, hi: Some(median) }).push(KeyRange { lo: Some(median), hi: bnd[a].hi })
}

/// The owners after leaf `a` splits around `median` into itself and leaf `q`.
pub open spec fn split_owner(owner: spec_fn(Seq<u8>) -> int, a: int, q: int, median: Seq<u8>) -> spec_fn(Seq<u8>) -> int {
    |k: Seq<u8>| if owner(k) == a && !lex_lt(k, median) { q } else { owner(k) }
}

/// Lemma: splitting the full leaf on the path of `key` and inserting `key`
/// into the half whose range holds it leaves the split pending at the leaf.
pub proof fn lemma_split_leaf(
    nv: Seq<NodeView>,
    root: int,
    bnd: Seq<KeyRange>,
    par: Seq<int>,
    owner: spec_fn(Seq<u8>) -> int,
    m: Map<Seq<u8>, SlotView>,
    path: Seq<u32>,
    h: int,
    key: Seq<u8>,
    value: Seq<u8>,
    left: NodeView,
    right: NodeView,
    t2: NodeView,
)
    requires
        structure_ok(nv, root),
        ranges_ok(nv, root, bnd, par),
        leaves_ok(nv, bnd, owner, m),
        path_ok(nv, root, path, h, key),
        !is_internal(nv[path[h] as int]),
        nv[path[h] as int].keys.len() == NODE_CAPACITY,
        key_index(nv[path[h] as int].keys, key) is None,
        in_range(bnd[path[h] as int], key),
        nv.len() + h + 2 < u32::MAX,
        node_wf(left),
        node_wf(right),
        node_wf(t2),
        left.page_type == PageType::Leaf,
        right.page_type == PageType::Leaf,
        t2.page_type == PageType::Leaf,
        left.level == 0,
        right.level == 0,
        t2.level == 0,
        left.keys == nv[path[h] as int].keys.subrange(0, (NODE_CAPACITY / 2) as int),
        left.slots == nv[path[h] as int].slots.subrange(0, (NODE_CAPACITY / 2) as int),
        right.keys == nv[path[h] as int].keys.subrange((NODE_CAPACITY / 2) as int, NODE_CAPACITY as int),
        right.slots == nv[path[h] as int].slots.subrange((NODE_CAPACITY / 2) as int, NODE_CAPACITY as int),
        ({
            let median = nv[path[h] as int].keys[(NODE_CAPACITY / 2) as int];
            let tn = if lex_lt(key, median) { left } else { right };
            &&& t2.keys == tn.keys.insert(rank(tn.keys, key), key)
            &&& t2.slots == tn.slots.insert(rank(tn.keys, key), SlotView::Inline(value))
        }),
    ensures
        ({
            let a = path[h] as int;
            let median = nv[a].keys[(NODE_CAPACITY / 2) as int];
            let q = nv.len() as int;
            let tgt = if lex_lt(key, median) { a } else { q };
            let nv2 = nv.update(a, left).push(right).update(tgt, t2);
            pending(
                nv2,
                root,
                split_ranges(bnd, a, median),
                par.push(par[a]),
                split_owner(owner, a, q, median),
                m.insert(key, SlotView::Inline(value)),
                path,
                h,
                key,
                median,
                q,
            )
        }),
{
    let a = path[h] as int;
    let an = nv[a];
    let mid = NODE_CAPACITY / 2;
    let median = an.keys[mid as int];
    let q = nv.len() as int;
    let to_left = lex_lt(key, median);
    let tgt = if to_left { a } else { q };
    let nv1 = nv.update(a, left).push(right);
    let nv2 = nv1.update(tgt, t2);
    let bnd2 = split_ranges(bnd, a, median);
    let par2 = par.push(par[a]);
    let owner2 = split_owner(owner, a, q, median);
    let m2 = m.insert(key, SlotView::Inline(value));
    let ra = bnd[a];
    assert(path[h] < nv.len());
    assert(node_wf(an));
    lemma_rank_sorted(left.keys, key);
    lemma_rank_sorted(right.keys, key);
    assert(nv2.len() == nv.len() + 1);
    assert(nv2[a] == (if to_left { t2 } else { left }));
    assert(nv2[q] == (if to_left { right } else { t2 }));
    assert forall|i: int| 0 <= i < nv.len() && i != a implies #[trigger] nv2[i] == nv[i] by {}
    // The median lies strictly inside the leaf's range.
    assert(in_range(ra, an.keys[0]));
    assert(in_range(ra, median));
    assert(lex_lt(an.keys[0], median));
    assert(strictly_above_lo(ra, median)) by {
        match ra.lo {
            Some(lo) => {
                lemma_lex_le_lt(lo, an.keys[0], median);
            },
            None => {},
        }
    }
    // Levels along the path.
    assert(nv[a].level == 0);
    assert(h == nv[root].level);
    assert forall|t: int| 0 <= t < h implies #[trigger] path[t] as int != a && nv[path[t] as int].level > 0 by {
        assert(path[t] < nv.len() && nv[path[t] as int].level + t == nv[root].level);
    }
    // Structure.
    assert forall|i: int| 0 <= i < nv2.len() implies node_wf(#[trigger] nv2[i]) by {
        if i < nv.len() && i != a {
            assert(nv2[i] == nv[i]);
        }
    }
    assert forall|i: int, j: int|
        0 <= i < nv2.len() && is_internal(nv2[i]) && -1 <= j < nv2[i].keys.len() implies {
            let c = #[trigger] child_of(nv2[i], j);
            0 <= c < nv2.len() && nv2[c].level + 1 == nv2[i].level
        } by {
        assert(i < nv.len() && i != a);
        assert(nv2[i] == nv[i]);
        let c = child_of(nv[i], j);
        assert(0 <= c < nv.len() && nv[c].level + 1 == nv[i].level);
    }
    assert(structure_ok(nv2, root));
    // Path.
    assert forall|t: int| 0 <= t <= h implies (#[trigger] path[t]) < nv2.len() && nv2[path[t] as int].level + t
        == nv2[root].level by {
        assert(path[t] < nv.len() && nv[path[t] as int].level + t == nv[root].level);
    }
    assert forall|t: int| 0 <= t < h implies is_internal(nv2[(#[trigger] path[t]) as int]) && path[t + 1] as int
        == route_child(nv2[path[t] as int], key) as int by {
        assert(path[t] < nv.len());
    }
    assert(path_ok(nv2, root, path, h, key));
    // Keys within ranges.
    assert forall|i: int, t: int| 0 <= i < nv2.len() && 0 <= t < nv2[i].keys.len() implies {
        &&& in_range(bnd2[i], #[trigger] nv2[i].keys[t])
        &&& is_internal(nv2[i]) ==> strictly_above_lo(bnd2[i], nv2[i].keys[t])
    } by {
        if i < nv.len() && i != a {
            assert(nv2[i] == nv[i]);
            assert(bnd2[i] == bnd[i]);
        } else {
            let k = nv2[i].keys[t];
            assert(in_range(ra, k)) by {
                if k != key {
                    let src = if i == a { left } else { right };
                    let pos = rank(src.keys, key);
                    let t1 = if (i == a) == to_left {
                        if t < pos { t } else { t - 1 }
                    } else {
                        t
                    };
                    assert(k == src.keys[t1]);
                    if i == a {
                        assert(k == an.keys[t1]);
                    } else {
                        assert(k == an.keys[mid + t1]);
                    }
                }
            }
            if i == a {
                assert(lex_lt(k, median)) by {
                    if k != key {
                        let pos = rank(left.keys, key);
                        let t1 = if to_left {
                            if t < pos { t } else { t - 1 }
                        } else {
                            t
                        };
                        assert(k == an.keys[t1]);
                        assert(t1 < mid);
                    }
                }
            } else {
                assert(!lex_lt(k, median)) by {
                    if k != key {
                        let pos = rank(right.keys, key);
                        let t1 = if !to_left {
                            if t < pos { t } else { t - 1 }
                        } else {
                            t
                        };
                        assert(k == an.keys[mid + t1]);
                        if t1 > 0 {
                            assert(lex_lt(median, k));
                            lemma_lex_total(median, k);
                        } else {
                            lemma_lex_irreflexive(k);
                        }
                    }
                }
                lemma_lex_total(median, k);
            }
        }
    }
    // References to the split leaf.
    if h > 0 {
        let p = path[h - 1] as int;
        let pn = nv[p];
        let ja = rank(pn.keys, key) - 1;
        assert(path[h - 1] < nv.len());
        assert(is_internal(nv[path[h - 1] as int]));
        assert(node_wf(pn));
        lemma_route_child_of(pn, key, bnd[p]);
        assert(a == child_of(pn, ja));
        assert(bnd[a] == child_range(pn, bnd[p], ja));
        assert(par[a] == p);
        assert forall|i: int, j: int|
            0 <= i < nv2.len() && is_internal(nv2[i]) && -1 <= j < nv2[i].keys.len() && !(i == p && j == ja) implies {
                &&& bnd2[#[trigger] child_of(nv2[i], j)] == child_range(nv2[i], bnd2[i], j)
                &&& par2[child_of(nv2[i], j)] == i
            } by {
            assert(i < nv.len() && i != a);
            assert(nv2[i] == nv[i]);
            let c = child_of(nv[i], j);
            if c == a {
                lemma_single_reference(nv, bnd, par, p, ja, p, ja, i, j);
            }
            assert(c < nv.len());
        }
        assert(nv2[p] == pn);
        assert(bnd2[p] == bnd[p]);
    } else {
        assert(a == root);
        assert forall|i: int, j: int|
            0 <= i < nv2.len() && is_internal(nv2[i]) && -1 <= j < nv2[i].keys.len() && !(i == -1 && j == -1) implies {
                &&& bnd2[#[trigger] child_of(nv2[i], j)] == child_range(nv2[i], bnd2[i], j)
                &&& par2[child_of(nv2[i], j)] == i
            } by {
            assert(i < nv.len() && i != a);
            assert(nv2[i] == nv[i]);
            let c = child_of(nv[i], j);
            assert(par[c] == i);
            assert(c != a);
            assert(c < nv.len());
        }
    }
    assert forall|i: int, j: int|
        0 <= i < nv2.len() && is_internal(nv2[i]) && -1 <= j < nv2[i].keys.len() implies #[trigger] child_of(nv2[i], j) != q by {
        assert(i < nv.len() && i != a);
        assert(nv2[i] == nv[i]);
        assert(child_of(nv[i], j) < nv.len());
    }
    // Leaves.
    assert forall|k: Seq<u8>| m2.dom().contains(k) implies !(#[trigger] m2[k] is Child) by {
        if k != key {
            assert(m.dom().contains(k));
        }
    }
    assert(owner(key) == a);
    assert forall|i: int, k: Seq<u8>|
        0 <= i < nv2.len() && !is_internal(nv2[i]) && #[trigger] in_range(bnd2[i], k) implies {
            &&& owner2(k) == i
            &&& lookup_in(nv2[i], k) == map_get(m2, k)
        } by {
        if i < nv.len() && i != a {
            assert(nv2[i] == nv[i]);
            assert(bnd2[i] == bnd[i]);
            assert(owner(k) == i);
            assert(k != key);
        } else {
            // The key lies in the split leaf's old range.
            assert(in_range(ra, k)) by {
                if i == a {
                    match ra.hi {
                        Some(hi) => {
                            lemma_lex_transitive(k, median, hi);
                        },
                        None => {},
                    }
                } else {
                    match ra.lo {
                        Some(lo) => {
                            lemma_lex_total(k, median);
                            lemma_lex_le_lt(lo, median, k);
                        },
                        None => {},
                    }
                }
            }
            assert(owner(k) == a);
            assert(lookup_in(an, k) == map_get(m, k));
            let half = if i == a { left } else { right };
            let (s0, e0) = if i == a { (0int, mid as int) } else { (mid as int, NODE_CAPACITY as int) };
            assert forall|t: int| 0 <= t < an.keys.len() && #[trigger] an.keys[t] == k implies s0 <= t < e0 by {
                if i == a {
                    if t >= mid {
                        if t > mid {
                            assert(lex_lt(median, an.keys[t]));
                            lemma_lex_total(median, k);
                        } else {
                            lemma_lex_irreflexive(k);
                        }
                    }
                } else {
                    if t < mid {
                        assert(lex_lt(an.keys[t], median));
                        lemma_lex_total(median, k);
                    }
                }
            }
            lemma_lookup_subrange(an, half, s0, e0, k);
            if (i == a) == to_left {
                assert(key_index(half.keys, key) is None) by {
                    assert forall|t: int| 0 <= t < half.keys.len() implies half.keys[t] != key by {
                        assert(half.keys[t] == an.keys[s0 + t]);
                    }
                }
                lemma_lookup_insert(half, t2, rank(half.keys, key), key, SlotView::Inline(value), k);
            } else {
                if i == a {
                    assert(lex_lt(k, median));
                } else {
                    lemma_lex_total(k, median);
                }
                assert(k != key);
            }
            assert(nv2[i] == (if (i == a) == to_left { t2 } else { half }));
            assert(lookup_in(nv2[i], k) == map_get(m2, k));
            if i == a {
                assert(lex_lt(k, median));
            } else {
                lemma_lex_total(k, median);
                assert(!lex_lt(k, median));
            }
            assert(owner2(k) == i);
        }
    }
}

/// Lemma: the children and child ranges of an internal node after inserting
/// separator `sep` with child `b` right after child position `jt`.
pub proof fn lemma_insert_child_shape(tn: NodeView, t2: NodeView, r: KeyRange, jt: int, sep: Seq<u8>, b: int)
    requires
        node_wf(tn),
        is_internal(tn),
        -1 <= jt < tn.keys.len(),
        0 <= b,
        b as u64 as int == b,
        t2.leftmost_child == tn.leftmost_child,
        t2.keys == tn.keys.insert(jt + 1, sep),
        t2.slots == tn.slots.insert(jt + 1, SlotView::Child(b as u64)),
    ensures
        forall|j: int| -1 <= j < t2.keys.len() ==> #[trigger] child_of(t2, j) == (if j <= jt {
            child_of(tn, j)
        } else if j == jt + 1 {
            b
        } else {
            child_of(tn, j - 1)
        }),
        forall|j: int| -1 <= j < t2.keys.len() ==> #[trigger] child_range(t2, r, j) == (if j < jt {
            child_range(tn, r, j)
        } else if j == jt {
            KeyRange { lo: child_range(tn, r, jt).lo, hi: Some(sep) }
        } else if j == jt + 1 {
            KeyRange { lo: Some(sep), hi: child_range(tn, r, jt).hi }
        } else {
            child_range(tn, r, j - 1)
        }),
{
    let pos = jt + 1;
    assert forall|j: int| -1 <= j < t2.keys.len() implies #[trigger] child_of(t2, j) == (if j <= jt {
        child_of(tn, j)
    } else if j == jt + 1 {
        b
    } else {
        child_of(tn, j - 1)
    }) by {
        if 0 <= j <= jt {
            assert(t2.slots[j] == tn.slots[j]);
        } else if j > pos {
            assert(t2.slots[j] == tn.slots[j - 1]);
        }
    }
    assert forall|j: int| -1 <= j < t2.keys.len() implies #[trigger] child_range(t2, r, j) == (if j < jt {
        child_range(tn, r, j)
    } else if j == jt {
        KeyRange { lo: child_range(tn, r, jt).lo, hi: Some(sep) }
    } else if j == jt + 1 {
        KeyRange { lo: Some(sep), hi: child_range(tn, r, jt).hi }
    } else {
        child_range(tn, r, j - 1)
    }) by {
        if j >= 0 && j < pos {
            assert(t2.keys[j] == tn.keys[j]);
        }
        if j > pos {
            assert(t2.keys[j] == tn.keys[j - 1]);
        }
        if j + 1 < pos {
            assert(t2.keys[j + 1] == tn.keys[j + 1]);
        }
        if j + 1 > pos && j + 1 < t2.keys.len() {
            assert(t2.keys[j + 1] == tn.keys[j]);
        }
    }
}

/// Lemma: the children and child ranges of the two halves of an internal
/// node split around separator `mid`, as positions of the original node.
pub proof fn lemma_split_children(pn: NodeView, left: NodeView, right: NodeView, r: KeyRange, mid: int)
    requires
        node_wf(pn),
        is_internal(pn),
        0 <= mid < pn.keys.len(),
        left.keys == pn.keys.subrange(0, mid),
        left.slots == pn.slots.subrange(0, mid),
        left.leftmost_child == pn.leftmost_child,
        right.keys == pn.keys.subrange(mid + 1, pn.keys.len() as int),
        right.slots == pn.slots.subrange(mid + 1, pn.keys.len() as int),
        right.leftmost_child == pn.slots[mid]->Child_0,
    ensures
        forall|j: int| -1 <= j < left.keys.len() ==> {
            &&& #[trigger] child_of(left, j) == child_of(pn, j)
            &&& child_range(left, KeyRange { lo: r.lo, hi: Some(pn.keys[mid]) }, j) == child_range(pn, r, j)
        },
        forall|j: int| -1 <= j < right.keys.len() ==> {
            &&& #[trigger] child_of(right, j) == child_of(pn, mid + 1 + j)
            &&& child_range(right, KeyRange { lo: Some(pn.keys[mid]), hi: r.hi }, j) == child_range(pn, r, mid + 1 + j)
        },
{
    assert forall|j: int| -1 <= j < left.keys.len() implies {
        &&& #[trigger] child_of(left, j) == child_of(pn, j)
        &&& child_range(left, KeyRange { lo: r.lo, hi: Some(pn.keys[mid]) }, j) == child_range(pn, r, j)
    } by {
        if j >= 0 {
            assert(left.slots[j] == pn.slots[j]);
            assert(left.keys[j] == pn.keys[j]);
        }
        if j + 1 < left.keys.len() {
            assert(left.keys[j + 1] == pn.keys[j + 1]);
        }
    }
    assert forall|j: int| -1 <= j < right.keys.len() implies {
        &&& #[trigger] child_of(right, j) == child_of(pn, mid + 1 + j)
        &&& child_range(right, KeyRange { lo: Some(pn.keys[mid]), hi: r.hi }, j) == child_range(pn, r, mid + 1 + j)
    } by {
        if j >= 0 {
            assert(right.slots[j] == pn.slots[mid + 1 + j]);
            assert(right.keys[j] == pn.keys[mid + 1 + j]);
        }
        if j + 1 < right.keys.len() {
            assert(right.keys[j + 1] == pn.keys[mid + 2 + j]);
        }
    }
}

/// Whether a range starts at or above `median`.
pub open spec fn starts_at_or_above(r: KeyRange, median: Seq<u8>) -> bool {
    match r.lo {
        Some(x) => lex_le(median, x),
        None => false,
    }
}

/// The parents after internal node `p` splits around `median` into itself
/// and the new node `q`: the nodes below `p` whose range starts at or above
/// the median move to `q`, and `q` gets `p`'s parent.
pub open spec fn split_parents(par: Seq<int>, bnd: Seq<KeyRange>, p: int, q: int, median: Seq<u8>) -> Seq<int> {
    Seq::new(
        (par.len() + 1) as nat,
        |c: int|
            if c == q {
                par[p]
            } else if par[c] == p && starts_at_or_above(bnd[c], median) {
                q
            } else {
                par[c]
            },
    )
}

/// Lemma: child `s` of an internal node moves to the upper half of a split
/// around separator `mid` exactly when its range starts at or above the median.
pub proof fn lemma_moves_up(pn: NodeView, r: KeyRange, s: int, mid: int)
    requires
        node_wf(pn),
        0 < mid < pn.keys.len(),
        -1 <= s < pn.keys.len(),
        forall|t: int| 0 <= t < pn.keys.len() ==> strictly_above_lo(r, #[trigger] pn.keys[t]),
    ensures
        starts_at_or_above(child_range(pn, r, s), pn.keys[mid]) <==> s >= mid,
{
    let median = pn.keys[mid];
    if s >= 0 {
        if s > mid {
            assert(lex_lt(median, pn.keys[s]));
        } else if s < mid {
            assert(lex_lt(pn.keys[s], median));
            lemma_lex_total(pn.keys[s], median);
        }
    } else {
        match r.lo {
            Some(l) => {
                assert(strictly_above_lo(r, pn.keys[0]));
                assert(lex_lt(pn.keys[0], median));
                lemma_lex_transitive(l, pn.keys[0], median);
                lemma_lex_total(l, median);
            },
            None => {},
        }
    }
}

/// Lemma: splitting the full parent of a pending split, and completing that
/// split in the half that now holds the split node, leaves a split pending
/// one level up.
#[verifier::spinoff_prover]
#[verifier::rlimit(50)]
pub proof fn lemma_split_internal(
    nv: Seq<NodeView>,
    root: int,
    bnd: Seq<KeyRange>,
    par: Seq<int>,
    owner: spec_fn(Seq<u8>) -> int,
    m: Map<Seq<u8>, SlotView>,
    path: Seq<u32>,
    a_idx: int,
    key: Seq<u8>,
    sep: Seq<u8>,
    b: int,
    left: NodeView,
    right: NodeView,
    t2: NodeView,
)
    requires
        pending(nv, root, bnd, par, owner, m, path, a_idx, key, sep, b),
        a_idx > 0,
        nv[path[a_idx - 1] as int].keys.len() == NODE_CAPACITY,
        node_wf(left),
        node_wf(right),
        node_wf(t2),
        left.page_type == PageType::Internal,
        right.page_type == PageType::Internal,
        t2.page_type == PageType::Internal,
        left.level == nv[path[a_idx - 1] as int].level,
        right.level == nv[path[a_idx - 1] as int].level,
        t2.level == nv[path[a_idx - 1] as int].level,
        left.keys == nv[path[a_idx - 1] as int].keys.subrange(0, (NODE_CAPACITY / 2) as int),
        left.slots == nv[path[a_idx - 1] as int].slots.subrange(0, (NODE_CAPACITY / 2) as int),
        left.leftmost_child == nv[path[a_idx - 1] as int].leftmost_child,
        right.keys == nv[path[a_idx - 1] as int].keys.subrange((NODE_CAPACITY / 2) as int + 1, NODE_CAPACITY as int),
        right.slots == nv[path[a_idx - 1] as int].slots.subrange((NODE_CAPACITY / 2) as int + 1, NODE_CAPACITY as int),
        right.leftmost_child == nv[path[a_idx - 1] as int].slots[(NODE_CAPACITY / 2) as int]->Child_0,
        ({
            let median = nv[path[a_idx - 1] as int].keys[(NODE_CAPACITY / 2) as int];
            let tn = if lex_lt(sep, median) { left } else { right };
            &&& t2.leftmost_child == tn.leftmost_child
            &&& t2.keys == tn.keys.insert(rank(tn.keys, sep), sep)
            &&& t2.slots == tn.slots.insert(rank(tn.keys, sep), SlotView::Child(b as u64))
        }),
    ensures
        ({
            let p = path[a_idx - 1] as int;
            let median = nv[p].keys[(NODE_CAPACITY / 2) as int];
            let q = nv.len() as int;
            let tgt = if lex_lt(sep, median) { p } else { q };
            let nv2 = nv.update(p, left).push(right).update(tgt, t2);
            pending(
                nv2,
                root,
                split_ranges(bnd, p, median),
                split_parents(par, bnd, p, q, median),
                owner,
                m,
                path,
                a_idx - 1,
                key,
                median,
                q,
            )
        }),
{
    let p = path[a_idx - 1] as int;
    let a = path[a_idx] as int;
    let pn = nv[p];
    let mid = (NODE_CAPACITY / 2) as int;
    let median = pn.keys[mid];
    let q = nv.len() as int;
    let r = bnd[p];
    let ja = rank(pn.keys, key) - 1;
    let d = child_range(pn, r, ja);
    let to_left = lex_lt(sep, median);
    let tgt = if to_left { p } else { q };
    let nv1 = nv.update(p, left).push(right);
    let nv2 = nv1.update(tgt, t2);
    let bnd2 = split_ranges(bnd, p, median);
    let par2 = split_parents(par, bnd, p, q, median);
    let rl = KeyRange { lo: r.lo, hi: Some(median) };
    let rr = KeyRange { lo: Some(median), hi: r.hi };
    assert(path[a_idx - 1] < nv.len());
    assert(is_internal(nv[path[a_idx - 1] as int]));
    assert(node_wf(pn));
    assert(bnd2[p] == rl && bnd2[q] == rr);
    assert forall|i: int| 0 <= i < nv.len() && i != p implies #[trigger] bnd2[i] == bnd[i] by {}
    assert(nv2.len() == nv.len() + 1);
    assert forall|i: int| 0 <= i < nv.len() && i != p implies #[trigger] nv2[i] == nv[i] by {}
    assert(nv2[p] == (if to_left { t2 } else { left }));
    assert(nv2[q] == (if to_left { right } else { t2 }));
    assert forall|t: int| 0 <= t < pn.keys.len() implies strictly_above_lo(r, #[trigger] pn.keys[t]) && in_range(r, pn.keys[t]) by {
        assert(strictly_above_lo(bnd[p], nv[p].keys[t]));
    }
    lemma_route_child_of(pn, key, r);
    assert(a == child_of(pn, ja));
    lemma_sep_position(pn, r, ja, sep);
    lemma_split_children(pn, left, right, r, mid);
    assert(b < nv.len());
    assert(b as u64 as int == b);
    // Which half holds the split child.
    let jt = if ja < mid { ja } else { ja - mid - 1 };
    let tn = if to_left { left } else { right };
    let rt = if to_left { rl } else { rr };
    if ja < mid {
        assert(to_left) by {
            if ja + 1 < mid {
                assert(lex_lt(pn.keys[ja + 1], median));
                lemma_lex_transitive(sep, pn.keys[ja + 1], median);
            }
        }
        assert(child_of(left, ja) == a);
        assert(child_range(left, rl, ja) == d);
        lemma_sep_position(left, rl, ja, sep);
    } else {
        assert(lex_lt(median, sep)) by {
            if ja > mid {
                assert(lex_lt(median, pn.keys[ja]));
                lemma_lex_transitive(median, pn.keys[ja], sep);
            }
        }
        assert(!to_left) by {
            lemma_lex_total(median, sep);
        }
        assert(child_of(right, jt) == a);
        assert(child_range(right, rr, jt) == d);
        lemma_sep_position(right, rr, jt, sep);
    }
    assert(-1 <= jt < tn.keys.len());
    assert(rank(tn.keys, sep) == jt + 1);
    lemma_insert_child_shape(tn, t2, rt, jt, sep, b);
    // Positions in the split node of the children of each half.
    let sig = |h_right: bool, j: int| if h_right { mid + 1 + j } else { j };
    // The separator lies strictly inside the target half's range.
    assert(in_range(rt, sep) && strictly_above_lo(rt, sep)) by {
        if ja >= 0 {
            match r.lo {
                Some(lo) => {
                    lemma_lex_transitive(lo, pn.keys[ja], sep);
                },
                None => {},
            }
        }
        if ja + 1 < pn.keys.len() {
            match r.hi {
                Some(hi) => {
                    lemma_lex_transitive(sep, pn.keys[ja + 1], hi);
                },
                None => {},
            }
        }
    }
    // Parents of the split node's children after the split.
    assert forall|s0: int| -1 <= s0 < pn.keys.len() && s0 != ja implies {
        let c = #[trigger] child_of(pn, s0);
        &&& bnd2[c] == bnd[c]
        &&& bnd[c] == child_range(pn, r, s0)
        &&& par2[c] == (if s0 >= mid { q } else { p })
        &&& 0 <= c < nv.len()
        &&& c != p
    } by {
        let c = child_of(pn, s0);
        assert(bnd[c] == child_range(pn, r, s0));
        assert(par[c] == p);
        assert(0 <= c < nv.len() && nv[c].level + 1 == pn.level);
        lemma_moves_up(pn, r, s0, mid);
    }
    assert(par2[a] == tgt) by {
        lemma_moves_up(pn, r, ja, mid);
        assert(bnd[a].lo == d.lo);
    }
    assert(par2[b] == tgt) by {
        if to_left {
            lemma_lex_total(median, sep);
        }
    }
    assert(bnd2[a] == bnd[a] && bnd2[b] == bnd[b]);
    // Structure.
    assert forall|i: int| 0 <= i < nv2.len() implies node_wf(#[trigger] nv2[i]) by {
        if i < nv.len() && i != p {
            assert(nv2[i] == nv[i]);
        }
    }
    assert forall|i: int, j: int|
        0 <= i < nv2.len() && is_internal(nv2[i]) && -1 <= j < nv2[i].keys.len() implies {
            let c = #[trigger] child_of(nv2[i], j);
            &&& 0 <= c < nv2.len()
            &&& nv2[c].level + 1 == nv2[i].level
            &&& c != q
        } by {
        if i < nv.len() && i != p {
            assert(nv2[i] == nv[i]);
            let c = child_of(nv[i], j);
            assert(0 <= c < nv.len() && nv[c].level + 1 == nv[i].level);
        } else {
            let h_right = i == q;
            let hn = if h_right { right } else { left };
            if (i == tgt) {
                if j <= jt {
                    assert(child_of(nv2[i], j) == child_of(pn, sig(h_right, j)));
                } else if j > jt + 1 {
                    assert(child_of(nv2[i], j) == child_of(pn, sig(h_right, j - 1)));
                } else {
                    assert(child_of(nv2[i], j) == b);
                }
            } else {
                assert(child_of(nv2[i], j) == child_of(pn, sig(h_right, j)));
            }
            let c = child_of(nv2[i], j);
            assert(0 <= c < nv.len() && nv[c].level + 1 == pn.level);
        }
    }
    assert(structure_ok(nv2, root));
    // Path.
    assert forall|t: int| 0 <= t < a_idx implies #[trigger] path[t] as int != q && (t < a_idx - 1 ==> path[t] as int != p) by {
        assert(path[t] < nv.len() && nv[path[t] as int].level + t == nv[root].level);
        assert(nv[p].level + (a_idx - 1) == nv[root].level);
    }
    assert forall|t: int| 0 <= t <= a_idx - 1 implies (#[trigger] path[t]) < nv2.len() && nv2[path[t] as int].level + t
        == nv2[root].level by {
        assert(path[t] < nv.len() && nv[path[t] as int].level + t == nv[root].level);
    }
    assert forall|t: int| 0 <= t < a_idx - 1 implies is_internal(nv2[(#[trigger] path[t]) as int]) && path[t + 1] as int
        == route_child(nv2[path[t] as int], key) as int by {
        assert(path[t] < nv.len());
        assert(is_internal(nv[path[t] as int]) && path[t + 1] as int == route_child(nv[path[t] as int], key) as int);
    }
    assert(path_ok(nv2, root, path, a_idx - 1, key));
    // Keys within ranges.
    assert forall|i: int, t: int| 0 <= i < nv2.len() && 0 <= t < nv2[i].keys.len() implies {
        &&& in_range(bnd2[i], #[trigger] nv2[i].keys[t])
        &&& is_internal(nv2[i]) ==> strictly_above_lo(bnd2[i], nv2[i].keys[t])
    } by {
        if i < nv.len() && i != p {
            assert(nv2[i] == nv[i]);
        } else {
            let h_right = i == q;
            let hn = if h_right { right } else { left };
            let k = nv2[i].keys[t];
            let t1 = if i == tgt {
                if t <= jt { t } else { t - 1 }
            } else {
                t
            };
            if i == tgt && t == jt + 1 {
                assert(k == sep);
            } else {
                assert(k == hn.keys[t1]);
                assert(k == pn.keys[sig(h_right, t1)]);
                if h_right {
                    assert(lex_lt(median, k));
                } else {
                    assert(lex_lt(k, median));
                }
            }
        }
    }
    // Children ranges and parents.
    if a_idx - 1 > 0 {
        let gp = path[a_idx - 2] as int;
        let gn = nv[gp];
        let jp = rank(gn.keys, key) - 1;
        assert(path[a_idx - 2] < nv.len());
        assert(is_internal(nv[path[a_idx - 2] as int]));
        assert(node_wf(gn));
        lemma_route_child_of(gn, key, bnd[gp]);
        assert(p == child_of(gn, jp));
        assert(gp != p);
        assert(bnd[p] == child_range(gn, bnd[gp], jp));
        assert(par[p] == gp);
        assert(nv2[gp] == gn);
        assert(par2[p] == gp);
        assert forall|i: int, j: int|
            0 <= i < nv2.len() && is_internal(nv2[i]) && -1 <= j < nv2[i].keys.len() && !(i == gp && j == jp) implies {
                &&& bnd2[#[trigger] child_of(nv2[i], j)] == child_range(nv2[i], bnd2[i], j)
                &&& par2[child_of(nv2[i], j)] == i
            } by {
            if i < nv.len() && i != p {
                assert(nv2[i] == nv[i]);
                let c = child_of(nv[i], j);
                if c == p {
                    lemma_single_reference(nv, bnd, par, p, ja, gp, jp, i, j);
                }
                if c == a {
                    lemma_single_reference(nv, bnd, par, p, ja, p, ja, i, j);
                }
                assert(c != b);
                assert(bnd[c] == child_range(nv[i], bnd[i], j) && par[c] == i);
            } else {
                let h_right = i == q;
                let hr = if h_right { rr } else { rl };
                if i == tgt {
                    if j < jt {
                        assert(child_range(nv2[i], hr, j) == child_range(pn, r, sig(h_right, j)));
                    } else if j > jt + 1 {
                        assert(child_range(nv2[i], hr, j) == child_range(pn, r, sig(h_right, j - 1)));
                    }
                } else {
                    assert(child_range(nv2[i], hr, j) == child_range(pn, r, sig(h_right, j)));
                    assert(sig(h_right, j) != ja);
                }
            }
        }
        assert(bnd2[root] == unbounded()) by {
            assert(root != p) by {
                assert(path[0] as int == root);
                assert(nv[path[0] as int].level + 0 == nv[root].level);
            }
        }
    } else {
        assert(p == root);
        assert(par2[q] == -1);
        assert forall|i: int, j: int|
            0 <= i < nv2.len() && is_internal(nv2[i]) && -1 <= j < nv2[i].keys.len() && !(i == -1 && j == -1) implies {
                &&& bnd2[#[trigger] child_of(nv2[i], j)] == child_range(nv2[i], bnd2[i], j)
                &&& par2[child_of(nv2[i], j)] == i
            } by {
            if i < nv.len() && i != p {
                assert(nv2[i] == nv[i]);
                let c = child_of(nv[i], j);
                if c == a {
                    lemma_single_reference(nv, bnd, par, p, ja, p, ja, i, j);
                }
                assert(c != b);
                assert(bnd[c] == child_range(nv[i], bnd[i], j) && par[c] == i);
                assert(c != p);
            } else {
                let h_right = i == q;
                let hr = if h_right { rr } else { rl };
                if i == tgt {
                    if j < jt {
                        assert(child_range(nv2[i], hr, j) == child_range(pn, r, sig(h_right, j)));
                    } else if j > jt + 1 {
                        assert(child_range(nv2[i], hr, j) == child_range(pn, r, sig(h_right, j - 1)));
                    }
                } else {
                    assert(child_range(nv2[i], hr, j) == child_range(pn, r, sig(h_right, j)));
                    assert(sig(h_right, j) != ja);
                }
            }
        }
    }
    assert(par2[root] == -1);
    // Leaves are unchanged.
    assert forall|i: int, k: Seq<u8>|
        0 <= i < nv2.len() && !is_internal(nv2[i]) && #[trigger] in_range(bnd2[i], k) implies {
            &&& owner(k) == i
            &&& lookup_in(nv2[i], k) == map_get(m, k)
        } by {
        assert(i < nv.len() && i != p);
        assert(nv2[i] == nv[i]);
        assert(in_range(bnd[i], k));
    }
}

/// Lemma: a new root holding the old root and the new node, split around
/// `sep`, completes a pending split of the root.
pub proof fn lemma_new_root(
    nv: Seq<NodeView>,
    root: int,
    bnd: Seq<KeyRange>,
    par: Seq<int>,
    owner: spec_fn(Seq<u8>) -> int,
    m: Map<Seq<u8>, SlotView>,
    path: Seq<u32>,
    key: Seq<u8>,
    sep: Seq<u8>,
    b: int,
    nr: NodeView,
    a2: NodeView,
    b2: NodeView,
)
    requires
        pending(nv, root, bnd, par, owner, m, path, 0, key, sep, b),
        nr.page_type == PageType::Internal,
        nr.level == nv[root].level + 1,
        nr.keys == seq![sep],
        nr.slots == seq![SlotView::Child(b as u64)],
        nr.leftmost_child == root as u64,
        a2 == (NodeView { parent_id: a2.parent_id, ..nv[root] }),
        b2 == (NodeView { parent_id: b2.parent_id, ..nv[b] }),
    ensures
        ({
            let n = nv.len() as int;
            let nv2 = nv.push(nr).update(root, a2).update(b, b2);
            let bnd2 = bnd.push(unbounded());
            let par2 = par.update(root, n).update(b, n).push(-1);
            &&& structure_ok(nv2, n)
            &&& ranges_ok(nv2, n, bnd2, par2)
            &&& leaves_ok(nv2, bnd2, owner, m)
        }),
{
    let n = nv.len() as int;
    let nv2 = nv.push(nr).update(root, a2).update(b, b2);
    let bnd2 = bnd.push(unbounded());
    let par2 = par.update(root, n).update(b, n).push(-1);
    assert(path[0] < nv.len());
    assert(b as u64 as int == b);
    assert(root as u64 as int == root);
    assert(nv2.len() == n + 1);
    assert(nv2[n] == nr);
    assert forall|i: int| 0 <= i < n && i != root && i != b implies #[trigger] nv2[i] == nv[i] by {}
    assert forall|i: int| 0 <= i < n implies #[trigger] bnd2[i] == bnd[i] by {}
    assert(node_wf(nr)) by {
        assert(sorted(nr.keys));
        assert(forall|i: int| 0 <= i < nr.slots.len() ==> is_child(#[trigger] nr.slots[i]));
    }
    assert(child_of(nr, -1) == root);
    assert(child_of(nr, 0) == b);
    assert forall|i: int| 0 <= i < nv2.len() implies node_wf(#[trigger] nv2[i]) by {
        if i < n && i != root && i != b {
            assert(nv2[i] == nv[i]);
        }
        if i == root || i == b {
            assert(node_wf(nv[i]));
            assert(nv2[i].keys == nv[i].keys && nv2[i].slots == nv[i].slots);
        }
    }
    assert forall|i: int, j: int|
        0 <= i < nv2.len() && is_internal(nv2[i]) && -1 <= j < nv2[i].keys.len() implies {
            let c = #[trigger] child_of(nv2[i], j);
            0 <= c < nv2.len() && nv2[c].level + 1 == nv2[i].level
        } by {
        if i < n {
            assert(child_of(nv2[i], j) == child_of(nv[i], j));
            let c = child_of(nv[i], j);
            assert(0 <= c < nv.len() && nv[c].level + 1 == nv[i].level);
        }
    }
    assert(structure_ok(nv2, n));
    assert forall|i: int, t: int| 0 <= i < nv2.len() && 0 <= t < nv2[i].keys.len() implies {
        &&& in_range(bnd2[i], #[trigger] nv2[i].keys[t])
        &&& is_internal(nv2[i]) ==> strictly_above_lo(bnd2[i], nv2[i].keys[t])
    } by {
        if i < n {
            assert(nv2[i].keys == nv[i].keys);
        }
    }
    assert forall|i: int, j: int|
        0 <= i < nv2.len() && is_internal(nv2[i]) && -1 <= j < nv2[i].keys.len() && !(i == -1 && j == -1) implies {
            &&& bnd2[#[trigger] child_of(nv2[i], j)] == child_range(nv2[i], bnd2[i], j)
            &&& par2[child_of(nv2[i], j)] == i
        } by {
        if i < n {
            assert(child_of(nv2[i], j) == child_of(nv[i], j));
            assert(nv2[i].keys == nv[i].keys && nv2[i].slots == nv[i].slots);
            let c = child_of(nv[i], j);
            assert(par[c] == i);
            assert(c != root);
            assert(c != b);
        }
    }
    assert(ranges_ok(nv2, n, bnd2, par2));
    assert forall|i: int, k: Seq<u8>|
        0 <= i < nv2.len() && !is_internal(nv2[i]) && #[trigger] in_range(bnd2[i], k) implies {
            &&& owner(k) == i
            &&& lookup_in(nv2[i], k) == map_get(m, k)
        } by {
        assert(i < n);
        assert(nv2[i].keys == nv[i].keys && nv2[i].slots == nv[i].slots);
        assert(in_range(bnd[i], k));
        assert(lookup_in(nv2[i], k) == lookup_in(nv[i], k));
    }
}

/// Result of a lookup.
#[derive(Debug)]
pub enum LookupResult<'a> {
    /// The key holds this inline value.
    Found(&'a [u8]),
    /// The key's value lives in a blob file.
    Blob(BlobPointer),
    /// The key was deleted.
    Deleted,
    /// The key is absent.
    NotFound,
}

/// Error from a B-tree operation.
#[derive(Debug, Clone, PartialEq, Eq)]
pub enum BTreeError {
    /// The key is already present.
    DuplicateKey,
    /// A node refused an insertion.
    InsertFailed(InsertError),
    /// A node could not be split.
    SplitFailed(SplitError),
}

/// An in-memory B-tree of byte-string keys.
pub struct BTree {
    nodes: Vec<Node>,
    root: PageId,
    bnd: Ghost<Seq<KeyRange>>,
    par: Ghost<Seq<int>>,
    owner: Ghost<spec_fn(Seq<u8>) -> int>,
    contents: Ghost<Map<Seq<u8>, SlotView>>,
}

impl View for BTree {
    type V = Map<Seq<u8>, SlotView>;

    /// The entries the tree holds, by key.
    closed spec fn view(&self) -> Map<Seq<u8>, SlotView> {
        self.contents@
    }
}

impl BTree {
    /// Views of the nodes, by page id.
    pub closed spec fn nodes_view(&self) -> Seq<NodeView> {
        self.nodes@.map_values(|n: Node| n@)
    }

    /// Page id of the root.
    pub closed spec fn root_id(&self) -> int {
        self.root as int
    }

    /// Height of the tree: the root's level.
    pub closed spec fn spec_height(&self) -> int {
        self.nodes_view()[self.root as int].level as int
    }

    /// Well-formedness of the tree.
    pub closed spec fn wf(&self) -> bool {
        &&& structure_ok(self.nodes_view(), self.root as int)
        &&& ranges_ok(self.nodes_view(), self.root as int, self.bnd@, self.par@)
        &&& leaves_ok(self.nodes_view(), self.bnd@, self.owner@, self.contents@)
    }

    /// Create an empty tree: a single empty leaf as root.
    pub fn new() -> (r: Self)
        ensures
            r.wf(),
            r@ == Map::<Seq<u8>, SlotView>::empty(),
            r.nodes_view().len() == 1,
            r.spec_height() == 0,
    {
        let leaf = Node::new_leaf();
        let mut nodes: Vec<Node> = Vec::new();
        nodes.push(leaf);
        let ghost bnd = seq![unbounded()];
        let ghost par = seq![-1int];
        let ghost owner = |k: Seq<u8>| 0int;
        let ghost contents = Map::<Seq<u8>, SlotView>::empty();
        let r = Self { nodes, root: 0, bnd: Ghost(bnd), par: Ghost(par), owner: Ghost(owner), contents: Ghost(contents) };
        proof {
            let nv = r.nodes_view();
            assert(nv.len() == 1);
            assert(nv[0] == leaf@);
            assert forall|i: int, k: Seq<u8>|
                0 <= i < nv.len() && !is_internal(nv[i]) && #[trigger] in_range(r.bnd@[i], k) implies {
                    &&& (r.owner@)(k) == i
                    &&& lookup_in(nv[i], k) == map_get(r.contents@, k)
                } by {
                assert(!(exists|t: int| 0 <= t < nv[i].keys.len() && nv[i].keys[t] == k));
            }
        }
        r
    }

    /// Number of nodes.
    pub fn node_count(&self) -> (r: usize)
        ensures
            r == self.nodes_view().len(),
    {
        self.nodes.len()
    }

    /// Height of the tree: 0 while the root is a leaf.
    pub fn height(&self) -> (r: u32)
        requires
            self.wf(),
        ensures
            r == self.spec_height(),
    {
        self.nodes[self.root as usize].level()
    }

    /// The node with page id `id`, if it exists.
    pub fn node(&self, id: PageId) -> (r: Option<&Node>)
        ensures
            match r {
                Some(n) => id < self.nodes_view().len() && n@ == self.nodes_view()[id as int],
                None => id >= self.nodes_view().len(),
            },
    {
        if (id as usize) < self.nodes.len() {
            Some(&self.nodes[id as usize])
        } else {
            None
        }
    }

    /// The child of internal node `id` that `key` belongs under.
    fn route(&self, id: PageId, key: &[u8]) -> (c: PageId)
        requires
            self.wf(),
            id < self.nodes_view().len(),
            is_internal(self.nodes_view()[id as int]),
        ensures
            c as int == route_child(self.nodes_view()[id as int], key@) as int,
            c < self.nodes_view().len(),
            self.nodes_view()[c as int].level + 1 == self.nodes_view()[id as int].level,
    {
        let ghost nv = self.nodes_view();
        let node = &self.nodes[id as usize];
        let ghost n = nv[id as int];
        assert(node@ == n);
        assert(node_wf(n));
        let count = node.count();
        let mut child = node.leftmost_child();
        let mut i: usize = 0;
        proof {
            assert(child as int == child_of(n, -1));
        }
        while i < count
            invariant_except_break
                count == n.keys.len(),
                node@ == n,
                node_wf(n),
                n.page_type == PageType::Internal,
                i <= count,
                child as int == child_of(n, i - 1),
                forall|t: int| 0 <= t < i ==> !lex_lt(key@, #[trigger] n.keys[t]),
            ensures
                i <= count,
                child as int == child_of(n, i - 1),
                forall|t: int| 0 <= t < i ==> !lex_lt(key@, #[trigger] n.keys[t]),
                i < count ==> lex_lt(key@, n.keys[i as int]),
            decreases count - i,
        {
            let sep = node.key_ref(i);
            if bytes_lt(key, sep) {
                break;
            }
            proof {
                assert(is_child(n.slots[i as int]));
            }
            child = match node.child_id(i) {
                Some(c) => c,
                None => 0,
            };
            i = i + 1;
        }
        proof {
            assert forall|t: int| i <= t < n.keys.len() implies lex_lt(key@, #[trigger] n.keys[t]) by {
                if t > i {
                    lemma_lex_transitive(key@, n.keys[i as int], n.keys[t]);
                }
            }
            lemma_rank_unique(n.keys, key@, i as int);
            assert(-1 <= i - 1 < n.keys.len());
            assert(0 <= child_of(n, i - 1) < nv.len());
        }
        child as PageId
    }

    /// The page id of the leaf where `key` belongs.
    fn find_leaf(&self, key: &[u8]) -> (r: PageId)
        requires
            self.wf(),
        ensures
            r as int == leaf_for(self.nodes_view(), self.root as int, key@),
            r < self.nodes_view().len(),
            !is_internal(self.nodes_view()[r as int]),
            in_range(self.bnd@[r as int], key@),
    {
        let ghost nv = self.nodes_view();
        let mut current = self.root;
        proof {
            lemma_leaf_for(nv, self.root as int, self.bnd@, self.par@, self.root as int, key@);
        }
        loop
            invariant
                self.wf(),
                nv == self.nodes_view(),
                current < nv.len(),
                leaf_for(nv, current as int, key@) == leaf_for(nv, self.root as int, key@),
                in_range(self.bnd@[leaf_for(nv, self.root as int, key@)], key@),
            decreases nv[current as int].level,
        {
            assert(self.nodes[current as int]@ == nv[current as int]);
            if self.nodes[current as usize].is_leaf() {
                assert(leaf_for(nv, current as int, key@) == current as int);
                return current;
            }
            current = self.route(current, key);
        }
    }

    /// Look `key` up.
    pub fn lookup(&self, key: &[u8]) -> (r: LookupResult<'_>)
        requires
            self.wf(),
        ensures
            match r {
                LookupResult::Found(d) => self@.dom().contains(key@) && self@[key@] == SlotView::Inline(d@),
                LookupResult::Blob(p) => self@.dom().contains(key@) && self@[key@] == SlotView::Blob(p),
                LookupResult::Deleted => self@.dom().contains(key@) && self@[key@] == SlotView::Tombstone,
                LookupResult::NotFound => !self@.dom().contains(key@),
            },
    {
        let ghost nv = self.nodes_view();
        let leaf_id = self.find_leaf(key);
        let node = &self.nodes[leaf_id as usize];
        assert(node@ == nv[leaf_id as int]);
        assert(node_wf(node@));
        proof {
            assert(lookup_in(nv[leaf_id as int], key@) == map_get(self.contents@, key@));
        }
        match node.search(key) {
            Ok(idx) => match node.value(idx) {
                Some(ValueRef::Inline(data)) => LookupResult::Found(data),
                Some(ValueRef::Blob(ptr)) => LookupResult::Blob(ptr),
                Some(ValueRef::Tombstone) => LookupResult::Deleted,
                None => LookupResult::NotFound,
            },
            Err(_) => LookupResult::NotFound,
        }
    }
    /// Delete `key` by marking it with a tombstone. Returns whether the key
    /// was present (as a value or as a tombstone already).
    pub fn delete(&mut self, key: &[u8]) -> (r: Result<bool, BTreeError>)
        requires
            old(self).wf(),
        ensures
            final(self).wf(),
            r == Ok::<bool, BTreeError>(old(self)@.dom().contains(key@)),
            final(self)@ == (if old(self)@.dom().contains(key@) {
                old(self)@.insert(key@, SlotView::Tombstone)
            } else {
                old(self)@
            }),
            final(self).nodes_view().len() == old(self).nodes_view().len(),
            final(self).spec_height() == old(self).spec_height(),
    {
        let ghost nv = self.nodes_view();
        let ghost m = self.contents@;
        let leaf_id = self.find_leaf(key);
        let l = leaf_id as usize;
        proof {
            assert(self.nodes[l as int]@ == nv[l as int]);
            assert(node_wf(nv[l as int]));
            assert(lookup_in(nv[l as int], key@) == map_get(m, key@));
        }
        match self.nodes[l].search(key) {
            Err(_) => {
                return Ok(false);
            },
            Ok(_) => {},
        }
        let res = self.nodes[l].insert_tombstone(key);
        match res {
            Ok(()) => {},
            Err(e) => {
                return Err(BTreeError::InsertFailed(e));
            },
        }
        proof {
            let n2 = self.nodes[l as int]@;
            let n1 = nv[l as int];
            let m2 = m.insert(key@, SlotView::Tombstone);
            let i = key_index(n1.keys, key@)->0;
            assert(self.nodes_view() =~= nv.update(l as int, n2));
            assert forall|k: Seq<u8>| #[trigger] in_range(self.bnd@[l as int], k) implies lookup_in(n2, k) == map_get(m2, k) by {
                if k != key@ {
                    assert(lookup_in(n1, k) == map_get(m, k));
                    match key_index(n1.keys, k) {
                        Some(t) => {
                            assert(n1.keys[t] == k);
                            assert(t != i);
                        },
                        None => {},
                    }
                }
            }
            assert forall|k: Seq<u8>| !in_range(self.bnd@[l as int], k) implies #[trigger] map_get(m2, k) == map_get(m, k) by {
                assert(k != key@);
            }
            assert forall|k: Seq<u8>| m2.dom().contains(k) implies !(#[trigger] m2[k] is Child) by {
                if k != key@ {
                    assert(m.dom().contains(k));
                }
            }
            lemma_replace_leaf(nv, self.root as int, self.bnd@, self.par@, self.owner@, m, l as int, n2, m2);
        }
        self.contents = Ghost(m.insert(key@, SlotView::Tombstone));
        Ok(true)
    }
    /// Append a node to the store; returns its page id.
    fn alloc_node(&mut self, node: Node) -> (id: PageId)
        requires
            old(self).nodes_view().len() + 1 < u32::MAX,
        ensures
            id == old(self).nodes_view().len(),
            final(self).nodes_view() == old(self).nodes_view().push(node@),
            final(self).root == old(self).root,
            final(self).bnd == old(self).bnd,
            final(self).par == old(self).par,
            final(self).owner == old(self).owner,
            final(self).contents == old(self).contents,
    {
        let id = self.nodes.len() as PageId;
        self.nodes.push(node);
        proof {
            assert(self.nodes_view() =~= old(self).nodes_view().push(node@));
        }
        id
    }

    /// The page ids from the root down to the leaf where `key` belongs.
    fn find_path(&self, key: &[u8]) -> (path: Vec<PageId>)
        requires
            self.wf(),
        ensures
            path_ok(self.nodes_view(), self.root as int, path@, path@.len() - 1, key@),
            !is_internal(self.nodes_view()[path@[path@.len() - 1] as int]),
            forall|t: int| 0 <= t < path@.len() ==> in_range(self.bnd@[(#[trigger] path@[t]) as int], key@),
    {
        let ghost nv = self.nodes_view();
        let mut path: Vec<PageId> = Vec::new();
        let mut current = self.root;
        path.push(current);
        loop
            invariant
                self.wf(),
                nv == self.nodes_view(),
                path@.len() >= 1,
                path_ok(nv, self.root as int, path@, path@.len() - 1, key@),
                current == path@[path@.len() - 1],
                forall|t: int| 0 <= t < path@.len() ==> in_range(self.bnd@[(#[trigger] path@[t]) as int], key@),
            decreases nv[current as int].level,
        {
            assert(self.nodes[current as int]@ == nv[current as int]);
            if self.nodes[current as usize].is_leaf() {
                return path;
            }
            proof {
                lemma_route(nv, self.root as int, self.bnd@, self.par@, current as int, key@);
            }
            let ghost old_path = path@;
            current = self.route(current, key);
            path.push(current);
            proof {
                let n = path@.len() - 1;
                assert forall|t: int| 0 <= t <= n implies (#[trigger] path@[t]) < nv.len() && nv[path@[t] as int].level + t
                    == nv[self.root as int].level by {
                    if t < n {
                        assert(path@[t] == old_path[t]);
                    }
                }
                assert forall|t: int| 0 <= t < n implies is_internal(nv[(#[trigger] path@[t]) as int]) && path@[t + 1] as int
                    == route_child(nv[path@[t] as int], key@) as int by {
                    assert(path@[t] == old_path[t]);
                    if t + 1 < n {
                        assert(path@[t + 1] == old_path[t + 1]);
                    }
                }
                assert forall|t: int| 0 <= t < path@.len() implies in_range(self.bnd@[(#[trigger] path@[t]) as int], key@) by {
                    if t < n {
                        assert(path@[t] == old_path[t]);
                    }
                }
            }
        }
    }

    /// Insert `key` with an inline `value`. Fails with `DuplicateKey` if the
    /// key is present (as a value or a tombstone). A full leaf is split, and
    /// splits propagate up to the root.
    #[verifier::rlimit(40)]
    pub fn insert(&mut self, key: &[u8], value: &[u8]) -> (r: Result<(), BTreeError>)
        requires
            old(self).wf(),
            old(self).nodes_view().len() + old(self).spec_height() + 2 < u32::MAX,
        ensures
            final(self).wf(),
            match r {
                Ok(()) => !old(self)@.dom().contains(key@) && final(self)@ == old(self)@.insert(
                    key@,
                    SlotView::Inline(value@),
                ),
                Err(BTreeError::DuplicateKey) => old(self)@.dom().contains(key@) && final(self)@ == old(self)@
                    && final(self).nodes_view() == old(self).nodes_view() && final(self).spec_height()
                    == old(self).spec_height(),
                Err(_) => false,
            },
            final(self).nodes_view().len() <= old(self).nodes_view().len() + old(self).spec_height() + 2,
            final(self).spec_height() <= old(self).spec_height() + 1,
    {
        let ghost nv = self.nodes_view();
        let ghost m = self.contents@;
        let path = self.find_path(key);
        let h = path.len() - 1;
        let leaf_id = path[h];
        let l = leaf_id as usize;
        proof {
            assert(path@[h as int] < nv.len());
            assert(self.nodes[l as int]@ == nv[l as int]);
            assert(node_wf(nv[l as int]));
            assert(in_range(self.bnd@[l as int], key@));
            assert(lookup_in(nv[l as int], key@) == map_get(m, key@));
            assert(h == nv[self.root as int].level);
        }
        let result = self.nodes[l].insert(key, value);
        match result {
            Ok(()) => {
                proof {
                    let n1 = nv[l as int];
                    let n2 = self.nodes[l as int]@;
                    let m2 = m.insert(key@, SlotView::Inline(value@));
                    assert(self.nodes_view() =~= nv.update(l as int, n2));
                    lemma_rank_sorted(n1.keys, key@);
                    assert forall|k: Seq<u8>| #[trigger] in_range(self.bnd@[l as int], k) implies lookup_in(n2, k)
                        == map_get(m2, k) by {
                        lemma_lookup_insert(n1, n2, rank(n1.keys, key@), key@, SlotView::Inline(value@), k);
                        assert(lookup_in(n1, k) == map_get(m, k));
                    }
                    assert forall|t: int| 0 <= t < n2.keys.len() implies in_range(self.bnd@[l as int], #[trigger] n2.keys[t]) by {
                        let pos = rank(n1.keys, key@);
                        if t < pos {
                            assert(n2.keys[t] == n1.keys[t]);
                        } else if t > pos {
                            assert(n2.keys[t] == n1.keys[t - 1]);
                        }
                    }
                    assert forall|k: Seq<u8>| !in_range(self.bnd@[l as int], k) implies #[trigger] map_get(m2, k)
                        == map_get(m, k) by {
                        assert(k != key@);
                    }
                    assert forall|k: Seq<u8>| m2.dom().contains(k) implies !(#[trigger] m2[k] is Child) by {
                        if k != key@ {
                            assert(m.dom().contains(k));
                        }
                    }
                    lemma_replace_leaf(nv, self.root as int, self.bnd@, self.par@, self.owner@, m, l as int, n2, m2);
                }
                self.contents = Ghost(m.insert(key@, SlotView::Inline(value@)));
                Ok(())
            },
            Err(InsertError::PageFull) => {
                proof {
                    assert(self.nodes_view() =~= nv);
                }
                self.split_and_insert_leaf(&path, key, value)
            },
            Err(InsertError::DuplicateKey(_)) => {
                proof {
                    assert(self.nodes_view() =~= nv);
                }
                Err(BTreeError::DuplicateKey)
            },
            Err(e) => Err(BTreeError::InsertFailed(e)),
        }
    }

    /// Split the full leaf at the end of `path`, insert `key` into the half
    /// it belongs to, and add the new leaf to the parent.
    fn split_and_insert_leaf(&mut self, path: &Vec<PageId>, key: &[u8], value: &[u8]) -> (r: Result<(), BTreeError>)
        requires
            old(self).wf(),
            path_ok(old(self).nodes_view(), old(self).root as int, path@, path@.len() - 1, key@),
            !is_internal(old(self).nodes_view()[path@[path@.len() - 1] as int]),
            old(self).nodes_view()[path@[path@.len() - 1] as int].keys.len() == NODE_CAPACITY,
            key_index(old(self).nodes_view()[path@[path@.len() - 1] as int].keys, key@) is None,
            in_range(old(self).bnd@[path@[path@.len() - 1] as int], key@),
            old(self).nodes_view().len() + path@.len() + 1 < u32::MAX,
        ensures
            r is Ok,
            final(self).wf(),
            final(self)@ == old(self)@.insert(key@, SlotView::Inline(value@)),
            final(self).nodes_view().len() <= old(self).nodes_view().len() + path@.len() + 1,
            final(self).spec_height() <= old(self).spec_height() + 1,
    {
        let ghost nv = self.nodes_view();
        let h = path.len() - 1;
        let leaf_id = path[h];
        let l = leaf_id as usize;
        proof {
            assert(path@[h as int] < nv.len());
            assert(self.nodes[l as int]@ == nv[l as int]);
            assert(node_wf(nv[l as int]));
        }
        let (median_key, right_node) = match self.nodes[l].split() {
            Ok(x) => x,
            Err(e) => {
                return Err(BTreeError::SplitFailed(e));
            },
        };
        let ghost left_view = self.nodes[l as int]@;
        proof {
            assert(self.nodes_view() =~= nv.update(l as int, left_view));
        }
        let right_id = self.alloc_node(right_node);
        let ghost nv_mid = self.nodes_view();
        let target_id = if !bytes_lt(key, median_key.as_slice()) {
            right_id
        } else {
            leaf_id
        };
        let ghost tn = self.nodes_view()[target_id as int];
        proof {
            assert(self.nodes@.len() == self.nodes_view().len());
            assert(self.nodes_view()[l as int] == left_view);
            assert(self.nodes[target_id as int]@ == tn);
        }
        match self.nodes[target_id as usize].insert(key, value) {
            Ok(()) => {},
            Err(e) => {
                return Err(BTreeError::InsertFailed(e));
            },
        }
        proof {
            let t2 = self.nodes[target_id as int]@;
            assert(self.nodes_view() =~= nv_mid.update(target_id as int, t2));
            assert(nv_mid =~= nv.update(l as int, left_view).push(right_node@));
            lemma_split_leaf(
                nv,
                self.root as int,
                self.bnd@,
                self.par@,
                self.owner@,
                self.contents@,
                path@,
                h as int,
                key@,
                value@,
                left_view,
                right_node@,
                t2,
            );
        }
        let ghost median = median_key@;
        self.bnd = Ghost(split_ranges(self.bnd@, l as int, median));
        self.par = Ghost(self.par@.push(self.par@[l as int]));
        self.owner = Ghost(split_owner(self.owner@, l as int, right_id as int, median));
        self.contents = Ghost(self.contents@.insert(key@, SlotView::Inline(value@)));
        if h == 0 {
            self.create_new_root(leaf_id, &median_key, right_id, Ghost(path@), Ghost(key@));
            Ok(())
        } else {
            self.insert_into_internal(path, h - 1, &median_key, right_id, Ghost(key@))
        }
    }

    /// Complete a pending split: insert separator `key` with child
    /// `right_child_id` into node `path[pidx]`, splitting it if it is full.
    fn insert_into_internal(
        &mut self,
        path: &Vec<PageId>,
        pidx: usize,
        key: &[u8],
        right_child_id: PageId,
        Ghost(search_key): Ghost<Seq<u8>>,
    ) -> (r: Result<(), BTreeError>)
        requires
            pending(
                old(self).nodes_view(),
                old(self).root as int,
                old(self).bnd@,
                old(self).par@,
                old(self).owner@,
                old(self).contents@,
                path@,
                pidx + 1,
                search_key,
                key@,
                right_child_id as int,
            ),
        ensures
            r is Ok,
            final(self).wf(),
            final(self)@ == old(self)@,
            final(self).nodes_view().len() <= old(self).nodes_view().len() + pidx + 2,
            final(self).spec_height() <= old(self).nodes_view()[old(self).root as int].level + 1,
        decreases pidx, 1nat,
    {
        let ghost nv = self.nodes_view();
        let parent_id = path[pidx];
        let p = parent_id as usize;
        proof {
            let pn = nv[p as int];
            assert(path@[pidx as int] < nv.len());
            assert(is_internal(nv[path@[pidx as int] as int]));
            assert(node_wf(pn));
            lemma_route_child_of(pn, search_key, self.bnd@[p as int]);
            lemma_sep_position(pn, self.bnd@[p as int], rank(pn.keys, search_key) - 1, key@);
            assert(self.nodes[p as int]@ == pn);
        }
        let result = self.nodes[p].insert_child(key, right_child_id as u64);
        match result {
            Ok(()) => {
                proof {
                    let p2 = self.nodes[p as int]@;
                    assert(self.nodes_view() =~= nv.update(p as int, p2));
                    lemma_insert_separator(
                        nv,
                        self.root as int,
                        self.bnd@,
                        self.par@,
                        self.owner@,
                        self.contents@,
                        path@,
                        pidx + 1,
                        search_key,
                        key@,
                        right_child_id as int,
                        p2,
                    );
                }
                Ok(())
            },
            Err(InsertError::PageFull) => {
                proof {
                    assert(self.nodes_view() =~= nv);
                }
                self.split_internal(path, pidx, key, right_child_id, Ghost(search_key))
            },
            Err(e) => Err(BTreeError::InsertFailed(e)),
        }
    }

    /// Split the full node `path[nidx]`, insert separator `key` with child
    /// `right_child_id` into the half it belongs to, and add the new node to
    /// the parent (or to a new root).
    fn split_internal(
        &mut self,
        path: &Vec<PageId>,
        nidx: usize,
        key: &[u8],
        right_child_id: PageId,
        Ghost(search_key): Ghost<Seq<u8>>,
    ) -> (r: Result<(), BTreeError>)
        requires
            pending(
                old(self).nodes_view(),
                old(self).root as int,
                old(self).bnd@,
                old(self).par@,
                old(self).owner@,
                old(self).contents@,
                path@,
                nidx + 1,
                search_key,
                key@,
                right_child_id as int,
            ),
            old(self).nodes_view()[path@[nidx as int] as int].keys.len() == NODE_CAPACITY,
        ensures
            r is Ok,
            final(self).wf(),
            final(self)@ == old(self)@,
            final(self).nodes_view().len() <= old(self).nodes_view().len() + nidx + 2,
            final(self).spec_height() <= old(self).nodes_view()[old(self).root as int].level + 1,
        decreases nidx, 0nat,
    {
        let ghost nv = self.nodes_view();
        let node_id = path[nidx];
        let p = node_id as usize;
        proof {
            assert(path@[nidx as int] < nv.len());
            assert(self.nodes[p as int]@ == nv[p as int]);
            assert(node_wf(nv[p as int]));
        }
        let (median_key, right_node) = match self.nodes[p].split() {
            Ok(x) => x,
            Err(e) => {
                return Err(BTreeError::SplitFailed(e));
            },
        };
        let ghost left_view = self.nodes[p as int]@;
        proof {
            assert(self.nodes_view() =~= nv.update(p as int, left_view));
        }
        let right_id = self.alloc_node(right_node);
        let ghost nv_mid = self.nodes_view();
        let target_id = if !bytes_lt(key, median_key.as_slice()) {
            right_id
        } else {
            node_id
        };
        let ghost tn = self.nodes_view()[target_id as int];
        proof {
            assert(self.nodes@.len() == self.nodes_view().len());
            assert(self.nodes_view()[p as int] == left_view);
            assert(self.nodes[target_id as int]@ == tn);
            let pn = nv[p as int];
            lemma_route_child_of(pn, search_key, self.bnd@[p as int]);
            let ja = rank(pn.keys, search_key) - 1;
            lemma_sep_position(pn, self.bnd@[p as int], ja, key@);
            let mid = (NODE_CAPACITY / 2) as int;
            // The separator is new in the target half.
            assert forall|t: int| 0 <= t < tn.keys.len() implies tn.keys[t] != key@ by {
                if target_id == right_id {
                    assert(tn.keys[t] == pn.keys[mid + 1 + t]);
                } else {
                    assert(tn.keys[t] == pn.keys[t]);
                }
            }
            assert(tn.keys.len() < NODE_CAPACITY);
        }
        match self.nodes[target_id as usize].insert_child(key, right_child_id as u64) {
            Ok(()) => {},
            Err(e) => {
                return Err(BTreeError::InsertFailed(e));
            },
        }
        proof {
            let t2 = self.nodes[target_id as int]@;
            assert(self.nodes_view() =~= nv_mid.update(target_id as int, t2));
            assert(nv_mid =~= nv.update(p as int, left_view).push(right_node@));
            lemma_split_internal(
                nv,
                self.root as int,
                self.bnd@,
                self.par@,
                self.owner@,
                self.contents@,
                path@,
                nidx + 1,
                search_key,
                key@,
                right_child_id as int,
                left_view,
                right_node@,
                t2,
            );
        }
        let ghost median = median_key@;
        self.par = Ghost(split_parents(self.par@, self.bnd@, p as int, right_id as int, median));
        self.bnd = Ghost(split_ranges(self.bnd@, p as int, median));
        if nidx == 0 {
            self.create_new_root(node_id, &median_key, right_id, Ghost(path@), Ghost(search_key));
            Ok(())
        } else {
            self.insert_into_internal(path, nidx - 1, &median_key, right_id, Ghost(search_key))
        }
    }

    /// Grow the tree by one level: a new root with `left_id` below separator
    /// `key` and `right_id` from it on.
    fn create_new_root(
        &mut self,
        left_id: PageId,
        key: &[u8],
        right_id: PageId,
        Ghost(path): Ghost<Seq<u32>>,
        Ghost(search_key): Ghost<Seq<u8>>,
    )
        requires
            pending(
                old(self).nodes_view(),
                old(self).root as int,
                old(self).bnd@,
                old(self).par@,
                old(self).owner@,
                old(self).contents@,
                path,
                0,
                search_key,
                key@,
                right_id as int,
            ),
            left_id == path[0],
        ensures
            final(self).wf(),
            final(self)@ == old(self)@,
            final(self).nodes_view().len() == old(self).nodes_view().len() + 1,
            final(self).spec_height() == old(self).nodes_view()[old(self).root as int].level + 1,
    {
        let ghost nv = self.nodes_view();
        let ghost root = self.root as int;
        proof {
            assert(path[0] < nv.len());
            assert(self.nodes[left_id as int]@ == nv[left_id as int]);
        }
        let level = self.nodes[left_id as usize].level() + 1;
        let mut new_root = Node::new_internal(level);
        new_root.set_leftmost_child(left_id as u64);
        let res = new_root.insert_child(key, right_id as u64);
        proof {
            assert(res is Ok);
            assert(new_root@.keys =~= seq![key@]);
            assert(new_root@.slots =~= seq![SlotView::Child(right_id as u64)]);
        }
        let new_root_id = self.alloc_node(new_root);
        proof {
            assert(self.nodes@.len() == self.nodes_view().len());
        }
        let ghost nv_mid = self.nodes_view();
        self.nodes[left_id as usize].set_parent_id(new_root_id);
        let ghost a2 = self.nodes[left_id as int]@;
        proof {
            assert(nv_mid[left_id as int] == nv[root]);
            assert(a2 == (NodeView { parent_id: a2.parent_id, ..nv[root] }));
            assert(self.nodes_view() =~= nv_mid.update(left_id as int, a2));
        }
        let ghost nv_mid2 = self.nodes_view();
        self.nodes[right_id as usize].set_parent_id(new_root_id);
        self.root = new_root_id;
        proof {
            let b2 = self.nodes[right_id as int]@;
            assert(self.nodes_view() =~= nv_mid2.update(right_id as int, b2));
            assert(nv_mid2[right_id as int] == nv[right_id as int]);
            assert(self.nodes_view() =~= nv.push(new_root@).update(root, a2).update(right_id as int, b2));
            lemma_new_root(
                nv,
                root,
                self.bnd@,
                self.par@,
                self.owner@,
                self.contents@,
                path,
                search_key,
                key@,
                right_id as int,
                new_root@,
                a2,
                b2,
            );
        }
        let ghost n = new_root_id as int;
        self.bnd = Ghost(self.bnd@.push(unbounded()));
        self.par = Ghost(self.par@.update(root, n).update(right_id as int, n).push(-1));
    }
    /// A forward scan over every live pair `(key, value)` with `start <= key
    /// < end`: keys holding an inline value, in increasing order; deleted
    /// keys and blob pointers are passed over.
    pub fn range_scan(&self, start: &[u8], end: &[u8]) -> (r: RangeScan<'_>)
        requires
            self.wf(),
        ensures
            scan_lists(r.remaining(), self@, start@, end@),
    {
        let mut acc: Vec<(Vec<u8>, Vec<u8>)> = Vec::new();
        let ghost nv = self.nodes_view();
        let ghost m = self@;
        let n = self.nodes.len();
        let mut i: usize = 0;
        proof {
            assert(pairs_view(acc@) =~= Seq::<(Seq<u8>, Seq<u8>)>::empty());
        }
        while i < n
            invariant
                self.wf(),
                nv == self.nodes_view(),
                m == self@,
                n == nv.len(),
                i <= n,
                partial_scan(pairs_view(acc@), m, start@, end@),
                forall|i2: int, t2: int| 0 <= i2 < i && 0 <= t2 < nv[i2].keys.len() && qualifies(nv[i2], t2, start@, end@)
                    ==> #[trigger] scan_has(pairs_view(acc@), nv[i2].keys[t2]),
            decreases n - i,
        {
            let node = &self.nodes[i];
            assert(node@ == nv[i as int]);
            let cnt = node.count();
            let mut t: usize = 0;
            while t < cnt
                invariant
                    self.wf(),
                    nv == self.nodes_view(),
                    m == self@,
                    n == nv.len(),
                    i < n,
                    node@ == nv[i as int],
                    cnt == nv[i as int].keys.len(),
                    t <= cnt,
                    partial_scan(pairs_view(acc@), m, start@, end@),
                    forall|i2: int, t2: int| 0 <= i2 < i && 0 <= t2 < nv[i2].keys.len() && qualifies(nv[i2], t2, start@, end@)
                        ==> #[trigger] scan_has(pairs_view(acc@), nv[i2].keys[t2]),
                    forall|t2: int| 0 <= t2 < t && qualifies(nv[i as int], t2, start@, end@)
                        ==> #[trigger] scan_has(pairs_view(acc@), nv[i as int].keys[t2]),
                decreases cnt - t,
            {
                let ghost acc0 = pairs_view(acc@);
                let mut added = false;
                if node.is_leaf() {
                    proof {
                        assert(node_wf(nv[i as int]));
                    }
                    match node.value(t) {
                        Some(ValueRef::Inline(v)) => {
                            let k = node.key(t).unwrap();
                            if !bytes_lt(k.as_slice(), start) && bytes_lt(k.as_slice(), end) {
                                proof {
                                    lemma_leaf_entry(nv, self.root as int, self.bnd@, self.par@, self.owner@, m, i as int, t as int);
                                    lemma_lex_total(k@, start@);
                                }
                                let vv = copy_range(v, 0, v.len());
                                proof {
                                    assert(v@.subrange(0, v@.len() as int) =~= v@);
                                }
                                add_scan_pair(&mut acc, k, vv, Ghost(m), Ghost(start@), Ghost(end@));
                                added = true;
                            } else {
                                proof {
                                    if lex_le(start@, k@) {
                                        lemma_lex_le_lt(start@, k@, start@);
                                        lemma_lex_irreflexive(start@);
                                    }
                                }
                            }
                        },
                        _ => {},
                    }
                }
                proof {
                    let acc1 = pairs_view(acc@);
                    if added {
                        assert(scan_has(acc1, nv[i as int].keys[t as int]));
                    } else {
                        assert(acc1 == acc0);
                        assert(!qualifies(nv[i as int], t as int, start@, end@));
                    }
                    assert forall|t2: int| 0 <= t2 < t + 1 && qualifies(nv[i as int], t2, start@, end@)
                        implies #[trigger] scan_has(acc1, nv[i as int].keys[t2]) by {
                        if t2 < t {
                            assert(scan_has(acc0, nv[i as int].keys[t2]));
                        }
                    }
                    assert forall|i2: int, t2: int| 0 <= i2 < i && 0 <= t2 < nv[i2].keys.len() && qualifies(nv[i2], t2, start@, end@)
                        implies #[trigger] scan_has(acc1, nv[i2].keys[t2]) by {
                        assert(scan_has(acc0, nv[i2].keys[t2]));
                    }
                }
                t = t + 1;
            }
            i = i + 1;
        }
        proof {
            let pv = pairs_view(acc@);
            assert forall|k: Seq<u8>| #[trigger] m.dom().contains(k) && m[k] is Inline && lex_le(start@, k) && lex_lt(k, end@)
                implies scan_has(pv, k) by {
                lemma_key_in_leaf(nv, self.root as int, self.bnd@, self.par@, self.owner@, m, k);
                let (i2, t2) = choose|i2: int, t2: int| 0 <= i2 < nv.len() && !is_internal(nv[i2]) && 0 <= t2 < nv[i2].keys.len()
                    && nv[i2].keys[t2] == k;
                lemma_leaf_entry(nv, self.root as int, self.bnd@, self.par@, self.owner@, m, i2, t2);
                lemma_lex_irreflexive(k);
                assert(qualifies(nv[i2], t2, start@, end@));
            }
        }
        let ghost av = acc@;
        let pending = reversed_pairs(acc);
        let r = RangeScan { tree: self, pending };
        proof {
            assert(pairs_view(pending@).reverse() =~= pairs_view(av));
        }
        r
    }
}

/// The pairs of a scan as byte strings.
pub open spec fn pairs_view(v: Seq<(Vec<u8>, Vec<u8>)>) -> Seq<(Seq<u8>, Seq<u8>)> {
    v.map_values(|p: (Vec<u8>, Vec<u8>)| (p.0@, p.1@))
}

/// Whether some pair of `out` has key `k`.
pub open spec fn scan_has(out: Seq<(Seq<u8>, Seq<u8>)>, k: Seq<u8>) -> bool {
    exists|a: int| 0 <= a < out.len() && #[trigger] out[a].0 == k
}

/// Whether `out` holds, in strictly increasing key order, only live pairs of
/// `m` with keys in `[start, end)`.
pub open spec fn partial_scan(out: Seq<(Seq<u8>, Seq<u8>)>, m: Map<Seq<u8>, SlotView>, start: Seq<u8>, end: Seq<u8>) -> bool {
    &&& forall|a: int, b: int| 0 <= a < b < out.len() ==> lex_lt(#[trigger] out[a].0, #[trigger] out[b].0)
    &&& forall|a: int| 0 <= a < out.len() ==> {
        &&& m.dom().contains((#[trigger] out[a]).0)
        &&& m[out[a].0] == SlotView::Inline(out[a].1)
        &&& lex_le(start, out[a].0)
        &&& lex_lt(out[a].0, end)
    }
}

/// Whether `out` lists exactly the live pairs of `m` with keys in `[start,
/// end)`: keys holding an inline value, each once, in increasing order.
pub open spec fn scan_lists(out: Seq<(Seq<u8>, Seq<u8>)>, m: Map<Seq<u8>, SlotView>, start: Seq<u8>, end: Seq<u8>) -> bool {
    &&& partial_scan(out, m, start, end)
    &&& forall|k: Seq<u8>| #[trigger] m.dom().contains(k) && m[k] is Inline && lex_le(start, k) && lex_lt(k, end)
        ==> scan_has(out, k)
}

/// Whether entry `t` of node `n` is one a scan of `[start, end)` yields: a
/// leaf entry with an inline value and a key in range.
pub open spec fn qualifies(n: NodeView, t: int, start: Seq<u8>, end: Seq<u8>) -> bool {
    &&& !is_internal(n)
    &&& n.slots[t] is Inline
    &&& lex_le(start, n.keys[t])
    &&& lex_lt(n.keys[t], end)
}

/// Lemma: an entry of a leaf is the tree's entry for its key.
proof fn lemma_leaf_entry(
    nv: Seq<NodeView>,
    root: int,
    bnd: Seq<KeyRange>,
    par: Seq<int>,
    owner: spec_fn(Seq<u8>) -> int,
    m: Map<Seq<u8>, SlotView>,
    i: int,
    t: int,
)
    requires
        structure_ok(nv, root),
        ranges_ok(nv, root, bnd, par),
        leaves_ok(nv, bnd, owner, m),
        0 <= i < nv.len(),
        !is_internal(nv[i]),
        0 <= t < nv[i].keys.len(),
    ensures
        m.dom().contains(nv[i].keys[t]),
        m[nv[i].keys[t]] == nv[i].slots[t],
{
    let k = nv[i].keys[t];
    assert(in_range(bnd[i], k));
    assert(node_wf(nv[i]));
    lemma_key_index_at(nv[i].keys, t);
    assert(lookup_in(nv[i], k) == Some(nv[i].slots[t]));
    assert(map_get(m, k) == Some(nv[i].slots[t]));
}

/// Lemma: every key the tree holds is an entry of some leaf.
proof fn lemma_key_in_leaf(
    nv: Seq<NodeView>,
    root: int,
    bnd: Seq<KeyRange>,
    par: Seq<int>,
    owner: spec_fn(Seq<u8>) -> int,
    m: Map<Seq<u8>, SlotView>,
    k: Seq<u8>,
)
    requires
        structure_ok(nv, root),
        ranges_ok(nv, root, bnd, par),
        leaves_ok(nv, bnd, owner, m),
        m.dom().contains(k),
    ensures
        exists|i: int, t: int| 0 <= i < nv.len() && !is_internal(nv[i]) && 0 <= t < nv[i].keys.len() && nv[i].keys[t] == k,
{
    assert(in_range(bnd[root], k));
    lemma_leaf_for(nv, root, bnd, par, root, k);
    let l = leaf_for(nv, root, k);
    assert(lookup_in(nv[l], k) == map_get(m, k));
    let t = key_index(nv[l].keys, k)->0;
    assert(0 <= t < nv[l].keys.len() && nv[l].keys[t] == k);
}

/// Adds a live pair to a sorted scan, unless its key is already there.
fn add_scan_pair(
    acc: &mut Vec<(Vec<u8>, Vec<u8>)>,
    k: Vec<u8>,
    v: Vec<u8>,
    Ghost(m): Ghost<Map<Seq<u8>, SlotView>>,
    Ghost(start): Ghost<Seq<u8>>,
    Ghost(end): Ghost<Seq<u8>>,
)
    requires
        partial_scan(pairs_view(old(acc)@), m, start, end),
        m.dom().contains(k@),
        m[k@] == SlotView::Inline(v@),
        lex_le(start, k@),
        lex_lt(k@, end),
    ensures
        partial_scan(pairs_view(final(acc)@), m, start, end),
        scan_has(pairs_view(final(acc)@), k@),
        forall|k2: Seq<u8>| scan_has(pairs_view(old(acc)@), k2) ==> #[trigger] scan_has(pairs_view(final(acc)@), k2),
{
    let ghost pv = pairs_view(acc@);
    let mut lo: usize = 0;
    let mut hi: usize = acc.len();
    while lo < hi
        invariant
            pv == pairs_view(acc@),
            partial_scan(pv, m, start, end),
            lo <= hi <= acc@.len(),
            forall|j: int| 0 <= j < lo ==> lex_lt(#[trigger] pv[j].0, k@),
            forall|j: int| hi <= j < pv.len() ==> !lex_lt(#[trigger] pv[j].0, k@),
        decreases hi - lo,
    {
        let mid = lo + (hi - lo) / 2;
        assert(pv[mid as int].0 == acc@[mid as int].0@);
        if bytes_lt(acc[mid].0.as_slice(), k.as_slice()) {
            assert forall|j: int| 0 <= j <= mid implies lex_lt(#[trigger] pv[j].0, k@) by {
                if j < mid {
                    lemma_lex_transitive(pv[j].0, pv[mid as int].0, k@);
                }
            }
            lo = mid + 1;
        } else {
            assert forall|j: int| mid <= j < pv.len() implies !lex_lt(#[trigger] pv[j].0, k@) by {
                if j > mid && lex_lt(pv[j].0, k@) {
                    lemma_lex_transitive(pv[mid as int].0, pv[j].0, k@);
                }
            }
            hi = mid;
        }
    }
    let p = lo;
    if p < acc.len() && crate::btree::order::bytes_eq(acc[p].0.as_slice(), k.as_slice()) {
        proof {
            assert(pv[p as int].0 == k@);
        }
        return;
    }
    proof {
        assert forall|j: int| 0 <= j < pv.len() implies #[trigger] pv[j].0 != k@ by {
            if j < p {
                lemma_lex_irreflexive(k@);
            } else if j > p {
                assert(pv[p as int].0 == acc@[p as int].0@);
                lemma_lex_total(pv[p as int].0, k@);
                if pv[j].0 == k@ {
                    lemma_lex_transitive(k@, pv[p as int].0, pv[j].0);
                    lemma_lex_irreflexive(k@);
                }
            } else {
                assert(pv[p as int].0 == acc@[p as int].0@);
            }
        }
    }
    let ghost kv = (k@, v@);
    acc.insert(p, (k, v));
    proof {
        let pv2 = pairs_view(acc@);
        assert(pv2 =~= pv.insert(p as int, kv));
        assert forall|a: int, b: int| 0 <= a < b < pv2.len() implies lex_lt(#[trigger] pv2[a].0, #[trigger] pv2[b].0) by {
            if b < p {
            } else if b == p {
            } else if a < p {
                assert(pv2[a] == pv[a] && pv2[b] == pv[b - 1]);
            } else if a == p {
                if b - 1 > p {
                    lemma_lex_total(pv[p as int].0, k@);
                    lemma_lex_transitive(k@, pv[p as int].0, pv[b - 1].0);
                } else {
                    lemma_lex_total(pv[p as int].0, k@);
                }
            } else {
            }
        }
        assert forall|a: int| 0 <= a < pv2.len() implies {
            &&& m.dom().contains((#[trigger] pv2[a]).0)
            &&& m[pv2[a].0] == SlotView::Inline(pv2[a].1)
            &&& lex_le(start, pv2[a].0)
            &&& lex_lt(pv2[a].0, end)
        } by {
            if a < p {
                assert(pv2[a] == pv[a]);
            } else if a > p {
                assert(pv2[a] == pv[a - 1]);
            }
        }
        assert(pv2[p as int].0 == k@);
        assert forall|k2: Seq<u8>| scan_has(pv, k2) implies #[trigger] scan_has(pv2, k2) by {
            let a = choose|a: int| 0 <= a < pv.len() && #[trigger] pv[a].0 == k2;
            if a < p {
                assert(pv2[a].0 == k2);
            } else {
                assert(pv2[a + 1].0 == k2);
            }
        }
    }
}

/// Reverses scan pairs, so that popping hands them out in order.
fn reversed_pairs(v: Vec<(Vec<u8>, Vec<u8>)>) -> (r: Vec<(Vec<u8>, Vec<u8>)>)
    ensures
        r@ == v@.reverse(),
{
    let ghost orig = v@;
    let n = v.len();
    let mut v = v;
    let mut r: Vec<(Vec<u8>, Vec<u8>)> = Vec::new();
    while v.len() > 0
        invariant
            n == orig.len(),
            v@.len() <= n,
            v@ == orig.take(v@.len() as int),
            r@.len() == n - v@.len(),
            forall|t: int| 0 <= t < r@.len() ==> #[trigger] r@[t] == orig[n - 1 - t],
        decreases v@.len(),
    {
        let ghost before = v@;
        let x = v.pop().unwrap();
        proof {
            assert(x == orig[before.len() - 1]);
            assert(v@ =~= orig.take(v@.len() as int));
        }
        r.push(x);
    }
    proof {
        assert(r@ =~= orig.reverse());
    }
    r
}

/// A forward range scan over a B-tree.
pub struct RangeScan<'a> {
    tree: &'a BTree,
    /// The pairs still to hand out, the last one first.
    pending: Vec<(Vec<u8>, Vec<u8>)>,
}

impl<'a> RangeScan<'a> {
    /// The pairs still to hand out, in order.
    pub closed spec fn remaining(&self) -> Seq<(Seq<u8>, Seq<u8>)> {
        pairs_view(self.pending@).reverse()
    }

    /// Hands out the next pair, or `None` once all are out.
    pub fn next(&mut self) -> (r: Option<(Vec<u8>, Vec<u8>)>)
        ensures
            old(self).remaining().len() == 0 ==> r is None && final(self).remaining() == old(self).remaining(),
            old(self).remaining().len() > 0 ==> (r matches Some(e) && (e.0@, e.1@) == old(self).remaining()[0]
                && final(self).remaining() == old(self).remaining().drop_first()),
    {
        let ghost before = pairs_view(self.pending@);
        let r = self.pending.pop();
        proof {
            if before.len() > 0 {
                assert(pairs_view(self.pending@) =~= before.drop_last());
                assert(before.drop_last().reverse() =~= before.reverse().drop_first());
            }
        }
        r
    }
}

impl Default for BTree {
    fn default() -> (r: Self)
        ensures
            r.wf(),
            r@ == Map::<Seq<u8>, SlotView>::empty(),
    {
        Self::new()
    }
}

/// Law: a tree holds no more keys than its nodes have room for, so a tree
/// with more than `NODE_CAPACITY` keys has split into several nodes.
pub proof fn law_keys_fit_in_nodes(t: &BTree)
    requires
        t.wf(),
    ensures
        t@.dom().finite(),
        t@.dom().len() <= t.nodes_view().len() * NODE_CAPACITY,
{
    let nv = t.nodes_view();
    let cap = NODE_CAPACITY as int;
    let total = nv.len() * cap;
    let slots = vstd::set_lib::set_int_range(0, total);
    vstd::set_lib::lemma_int_range(0, total);
    let f = |x: int| nv[x / cap].keys[x % cap];
    let img = slots.map(f);
    vstd::set_lib::lemma_map_size_bound(slots, img, f);
    assert forall|k: Seq<u8>| t@.dom().contains(k) implies img.contains(k) by {
        lemma_key_in_leaf(nv, t.root as int, t.bnd@, t.par@, t.owner@, t.contents@, k);
        let (i, j) = choose|i: int, j: int| 0 <= i < nv.len() && !is_internal(nv[i]) && 0 <= j < nv[i].keys.len() && nv[i].keys[j] == k;
        assert(node_wf(nv[i]));
        let x = i * cap + j;
        assert(0 <= j < cap);
        assert(x / cap == i && x % cap == j) by {
            vstd::arithmetic::div_mod::lemma_fundamental_div_mod_converse(x, cap, i, j);
        }
        assert(0 <= x < total) by {
            vstd::arithmetic::mul::lemma_mul_inequality(i + 1, nv.len() as int, cap);
        }
        assert(slots.contains(x));
        assert(f(x) == k);
    }
    vstd::set_lib::lemma_len_subset(t@.dom(), img);
}

/// Law: a range scan yields keys in strictly increasing order: of two
/// pairs it hands out, the earlier has the smaller key.
pub proof fn law_scan_in_order(out: Seq<(Seq<u8>, Seq<u8>)>, m: Map<Seq<u8>, SlotView>, start: Seq<u8>, end: Seq<u8>, a: int, b: int)
    requires
        scan_lists(out, m, start, end),
        0 <= a < b < out.len(),
    ensures
        lex_lt(out[a].0, out[b].0),
{
}

/// Law: a range scan yields exactly one pair for each live key in range,
/// with the value the tree holds for it.
pub proof fn law_scan_complete(out: Seq<(Seq<u8>, Seq<u8>)>, m: Map<Seq<u8>, SlotView>, start: Seq<u8>, end: Seq<u8>, k: Seq<u8>, v: Seq<u8>)
    requires
        scan_lists(out, m, start, end),
        m.dom().contains(k),
        m[k] == SlotView::Inline(v),
        lex_le(start, k),
        lex_lt(k, end),
    ensures
        exists|a: int| 0 <= a < out.len() && out[a] == (k, v),
{
    assert(scan_has(out, k));
    let a = choose|a: int| 0 <= a < out.len() && #[trigger] out[a].0 == k;
    assert(out[a] == (k, v));
}

/// Law: after a successful insert of `key` with `value`, a lookup of `key`
/// finds `value`, and every other key finds what it found before.
pub proof fn law_insert_then_lookup(before: Map<Seq<u8>, SlotView>, key: Seq<u8>, value: Seq<u8>, k: Seq<u8>)
    ensures
        ({
            let after = before.insert(key, SlotView::Inline(value));
            &&& after.dom().contains(key)
            &&& after[key] == SlotView::Inline(value)
            &&& k != key ==> map_get(after, k) == map_get(before, k)
        }),
{
}

/// Law: after deleting a present key, a lookup of it finds a tombstone, and
/// every other key finds what it found before; deleting an absent key
/// changes nothing.
pub proof fn law_delete_then_lookup(before: Map<Seq<u8>, SlotView>, key: Seq<u8>, k: Seq<u8>)
    ensures
        ({
            let after = if before.dom().contains(key) { before.insert(key, SlotView::Tombstone) } else { before };
            &&& before.dom().contains(key) ==> after.dom().contains(key) && after[key] == SlotView::Tombstone
            &&& !before.dom().contains(key) ==> !after.dom().contains(key)
            &&& k != key ==> map_get(after, k) == map_get(before, k)
        }),
{
}

} // verus!
