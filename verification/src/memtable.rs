//! Memtable: the in-memory buffer of recent writes, a sorted map of
//! versioned entries kept in a concurrent skip list of crossbeam_skiplist.
//!
//! Every write is a version of a user key with a sequence number. Versions
//! are ordered by user key, then newest first: the skip list is keyed by
//! the user key and `u64::MAX - seq`.

use vstd::prelude::*;
use crossbeam_skiplist::SkipMap;
use crate::btree::order::{lex_lt, bytes_eq, lemma_lex_transitive, lemma_lex_total, lemma_lex_irreflexive};
use crate::codec::copy_range;

verus! {

/// Kind of a versioned entry.
#[derive(Debug, Clone, Copy, PartialEq, Eq, Structural)]
pub enum ValueType {
    /// A value.
    Value,
    /// A deletion marker.
    Deletion,
    /// A merge operand.
    Merge,
    /// A log record, ignored by reads.
    Log,
}

/// A versioned key: user key, sequence number and kind.
#[derive(Debug, Clone, PartialEq, Eq)]
pub struct InternalKey {
    /// The user key.
    pub user_key: Vec<u8>,
    /// Sequence number of the write.
    pub seq: u64,
    /// Kind of the write.
    pub kind: ValueType,
}

/// What a memtable holds for a user key.
#[derive(Debug, Clone, PartialEq)]
pub enum Entry {
    /// The latest value.
    Value(Vec<u8>),
    /// The key was deleted.
    Tombstone,
    /// Merge operands, newest first.
    Merge(Vec<Vec<u8>>),
}

/// An `Entry` as byte strings.
pub enum EntryView {
    /// The latest value.
    Value(Seq<u8>),
    /// The key was deleted.
    Tombstone,
    /// Merge operands, newest first.
    Merge(Seq<Seq<u8>>),
}

/// The view of an `Entry`.
pub open spec fn entry_view(e: Entry) -> EntryView {
    match e {
        Entry::Value(v) => EntryView::Value(v@),
        Entry::Tombstone => EntryView::Tombstone,
        Entry::Merge(ops) => EntryView::Merge(ops@.map_values(|o: Vec<u8>| o@)),
    }
}

/// Key under which the skip list keeps a version.
pub type OrderKey = (Vec<u8>, u64);

/// What the skip list keeps for a version: its kind and its bytes.
pub type Stored = (ValueType, Vec<u8>);

/// The order number of sequence number `seq`: newer versions get smaller numbers.
pub open spec fn order_of(seq: u64) -> u64 {
    (u64::MAX - seq) as u64
}

/// The sequence number of order number `n`.
pub open spec fn seq_of(n: u64) -> u64 {
    (u64::MAX - n) as u64
}

/// Whether order key `a` sorts before `b`: by user key, then by order number
/// (the order of std's `Ord` on `(Vec<u8>, u64)`).
pub open spec fn okey_lt(a: (Seq<u8>, u64), b: (Seq<u8>, u64)) -> bool {
    lex_lt(a.0, b.0) || (a.0 == b.0 && a.1 < b.1)
}

#[verifier::external_type_specification]
#[verifier::external_body]
#[verifier::reject_recursive_types(K)]
#[verifier::reject_recursive_types(V)]
pub struct ExSkipMap<K, V>(SkipMap<K, V>);

/// What a skip list of versions holds: order key to kind and bytes.
pub uninterp spec fn skip_map_contents(m: SkipMap<OrderKey, Stored>) -> Map<(Seq<u8>, u64), (ValueType, Seq<u8>)>;

/// The entries of a skip list as byte strings.
pub open spec fn pairs_view(v: Seq<(OrderKey, Stored)>) -> Seq<((Seq<u8>, u64), (ValueType, Seq<u8>))> {
    v.map_values(|e: (OrderKey, Stored)| ((e.0.0@, e.0.1), (e.1.0, e.1.1@)))
}

/// Whether `v` lists, in increasing order, exactly the entries of `m` whose
/// keys are at least `lo` and, when `hi` is given, below `hi`.
pub open spec fn lists_range(
    v: Seq<((Seq<u8>, u64), (ValueType, Seq<u8>))>,
    m: Map<(Seq<u8>, u64), (ValueType, Seq<u8>)>,
    lo: (Seq<u8>, u64),
    hi: Option<(Seq<u8>, u64)>,
) -> bool {
    &&& forall|i: int, j: int| 0 <= i < j < v.len() ==> okey_lt(#[trigger] v[i].0, #[trigger] v[j].0)
    &&& forall|i: int| 0 <= i < v.len() ==> {
        &&& m.contains_key((#[trigger] v[i]).0)
        &&& m[v[i].0] == v[i].1
        &&& !okey_lt(v[i].0, lo)
        &&& (hi matches Some(h) ==> okey_lt(v[i].0, h))
    }
    &&& forall|k: (Seq<u8>, u64)| #[trigger] m.contains_key(k) && !okey_lt(k, lo) && (hi matches Some(h) ==> okey_lt(k, h))
        ==> exists|i: int| 0 <= i < v.len() && v[i].0 == k
}

/// No versions at all.
pub open spec fn no_versions() -> Map<(Seq<u8>, u64), (ValueType, Seq<u8>)> {
    Map::empty()
}

/// Calls `SkipMap::new`: the new skip list is empty.
#[verifier::external_body]
fn skip_map_new() -> (r: SkipMap<OrderKey, Stored>)
    ensures
        skip_map_contents(r) == no_versions(),
{
    SkipMap::new()
}

/// Calls `SkipMap::insert`, which replaces any entry under the same key.
#[verifier::external_body]
fn skip_map_insert(m: &mut SkipMap<OrderKey, Stored>, key: OrderKey, value: Stored)
    ensures
        skip_map_contents(*final(m)) == skip_map_contents(*old(m)).insert((key.0@, key.1), (value.0, value.1@)),
{
    m.insert(key, value);
}

/// Calls `SkipMap::len`: the number of entries.
#[verifier::external_body]
fn skip_map_len(m: &SkipMap<OrderKey, Stored>) -> (r: usize)
    requires
        skip_map_contents(*m).dom().finite(),
    ensures
        r == skip_map_contents(*m).dom().len(),
{
    m.len()
}

/// Calls `SkipMap::get` and copies out the stored kind and bytes.
#[verifier::external_body]
fn skip_map_get(m: &SkipMap<OrderKey, Stored>, key: &OrderKey) -> (r: Option<Stored>)
    ensures
        r is Some <==> skip_map_contents(*m).contains_key((key.0@, key.1)),
        r matches Some(s) ==> (s.0, s.1@) == skip_map_contents(*m)[(key.0@, key.1)],
{
    m.get(key).map(|e| e.value().clone())
}

/// Calls `SkipMap::range` from `lo` (inclusive) to the end and copies out
/// the entries, in increasing key order.
#[verifier::external_body]
fn skip_map_range_from(m: &SkipMap<OrderKey, Stored>, lo: &OrderKey) -> (r: Vec<(OrderKey, Stored)>)
    ensures
        lists_range(pairs_view(r@), skip_map_contents(*m), (lo.0@, lo.1), None),
{
    m.range(lo.clone()..).map(|e| (e.key().clone(), e.value().clone())).collect()
}

/// Calls `SkipMap::range` from `lo` (inclusive) to `hi` (exclusive) and
/// copies out the entries, in increasing key order.
#[verifier::external_body]
fn skip_map_range(m: &SkipMap<OrderKey, Stored>, lo: &OrderKey, hi: &OrderKey) -> (r: Vec<(OrderKey, Stored)>)
    ensures
        lists_range(pairs_view(r@), skip_map_contents(*m), (lo.0@, lo.1), Some((hi.0@, hi.1))),
{
    m.range(lo.clone()..hi.clone()).map(|e| (e.key().clone(), e.value().clone())).collect()
}

/// Whether a kind decides a read: a value or a deletion.
pub open spec fn is_base(k: ValueType) -> bool {
    k == ValueType::Value || k == ValueType::Deletion
}

/// Whether `vs` lists, by increasing order number (newest first), exactly
/// the versions of `key` in `m` whose order numbers are at least `from`.
pub open spec fn lists_versions(
    vs: Seq<(u64, (ValueType, Seq<u8>))>,
    m: Map<(Seq<u8>, u64), (ValueType, Seq<u8>)>,
    key: Seq<u8>,
    from: int,
) -> bool {
    &&& forall|i: int, j: int| 0 <= i < j < vs.len() ==> (#[trigger] vs[i]).0 < (#[trigger] vs[j]).0
    &&& forall|i: int| 0 <= i < vs.len() ==> {
        &&& (#[trigger] vs[i]).0 >= from
        &&& m.contains_key((key, vs[i].0))
        &&& m[(key, vs[i].0)] == vs[i].1
    }
    &&& forall|n: u64| n >= from && #[trigger] m.contains_key((key, n)) ==> exists|i: int|
        0 <= i < vs.len() && vs[i].0 == n
}

/// A point read over versions listed newest first: the first value or
/// deletion decides; merge operands and log records are passed over.
pub open spec fn read_versions(vs: Seq<(u64, (ValueType, Seq<u8>))>) -> Option<(Seq<u8>, u64)>
    decreases vs.len(),
{
    if vs.len() == 0 {
        None
    } else if vs[0].1.0 == ValueType::Value {
        Some((vs[0].1.1, seq_of(vs[0].0)))
    } else if vs[0].1.0 == ValueType::Deletion {
        None
    } else {
        read_versions(vs.skip(1))
    }
}

/// The read of `key` at snapshot `snapshot_seq`: the newest version not
/// newer than the snapshot that is a value or a deletion decides; a value
/// is returned with its sequence number.
pub open spec fn read_at(
    m: Map<(Seq<u8>, u64), (ValueType, Seq<u8>)>,
    key: Seq<u8>,
    snapshot_seq: u64,
    r: Option<(Seq<u8>, u64)>,
) -> bool {
    exists|vs: Seq<(u64, (ValueType, Seq<u8>))>| #[trigger] lists_versions(vs, m, key, order_of(snapshot_seq) as int)
        && r == read_versions(vs)
}

/// Lemma: a listing of versions is unique.
pub proof fn lemma_listing_unique(
    a: Seq<(u64, (ValueType, Seq<u8>))>,
    b: Seq<(u64, (ValueType, Seq<u8>))>,
    m: Map<(Seq<u8>, u64), (ValueType, Seq<u8>)>,
    key: Seq<u8>,
    from: int,
)
    requires
        lists_versions(a, m, key, from),
        lists_versions(b, m, key, from),
    ensures
        a == b,
    decreases a.len(),
{
    if a.len() == 0 {
        if b.len() > 0 {
            assert(b[0].0 >= from && m.contains_key((key, b[0].0)));
        }
        assert(a =~= b);
    } else {
        assert(a[0].0 >= from && m.contains_key((key, a[0].0)));
        let j = choose|j: int| 0 <= j < b.len() && b[j].0 == a[0].0;
        assert(b[0].0 >= from && m.contains_key((key, b[0].0)));
        let i = choose|i: int| 0 <= i < a.len() && a[i].0 == b[0].0;
        if j > 0 {
            assert(b[0].0 < b[j].0);
        }
        if i > 0 {
            assert(a[0].0 < a[i].0);
        }
        assert(a[0] == b[0]);
        let f2 = a[0].0 + 1;
        let a2 = a.skip(1);
        let b2 = b.skip(1);
        assert forall|x: int, y: int| 0 <= x < y < a2.len() implies (#[trigger] a2[x]).0 < (#[trigger] a2[y]).0 by {
            assert(a2[x] == a[x + 1] && a2[y] == a[y + 1]);
        }
        assert forall|x: int| 0 <= x < a2.len() implies {
            &&& (#[trigger] a2[x]).0 >= f2
            &&& m.contains_key((key, a2[x].0))
            &&& m[(key, a2[x].0)] == a2[x].1
        } by {
            assert(a2[x] == a[x + 1]);
            assert(a[0].0 < a[x + 1].0);
        }
        assert forall|n: u64| n >= f2 && #[trigger] m.contains_key((key, n)) implies exists|x: int|
            0 <= x < a2.len() && a2[x].0 == n by {
            let x = choose|x: int| 0 <= x < a.len() && a[x].0 == n;
            assert(x > 0);
            assert(a2[x - 1].0 == n);
        }
        assert forall|x: int, y: int| 0 <= x < y < b2.len() implies (#[trigger] b2[x]).0 < (#[trigger] b2[y]).0 by {
            assert(b2[x] == b[x + 1] && b2[y] == b[y + 1]);
        }
        assert forall|x: int| 0 <= x < b2.len() implies {
            &&& (#[trigger] b2[x]).0 >= f2
            &&& m.contains_key((key, b2[x].0))
            &&& m[(key, b2[x].0)] == b2[x].1
        } by {
            assert(b2[x] == b[x + 1]);
            assert(b[0].0 < b[x + 1].0);
        }
        assert forall|n: u64| n >= f2 && #[trigger] m.contains_key((key, n)) implies exists|x: int|
            0 <= x < b2.len() && b2[x].0 == n by {
            let x = choose|x: int| 0 <= x < b.len() && b[x].0 == n;
            assert(x > 0);
            assert(b2[x - 1].0 == n);
        }
        lemma_listing_unique(a2, b2, m, key, f2);
        assert(a =~= seq![a[0]] + a2);
        assert(b =~= seq![b[0]] + b2);
    }
}

/// Lemma: a listing from `from` on that holds order number `from` starts with it.
proof fn lemma_listing_starts_at(
    vs: Seq<(u64, (ValueType, Seq<u8>))>,
    m: Map<(Seq<u8>, u64), (ValueType, Seq<u8>)>,
    key: Seq<u8>,
    from: u64,
)
    requires
        lists_versions(vs, m, key, from as int),
        m.contains_key((key, from)),
    ensures
        vs.len() > 0,
        vs[0] == (from, m[(key, from)]),
{
    let i = choose|i: int| 0 <= i < vs.len() && vs[i].0 == from;
    if i > 0 {
        assert(vs[0].0 < vs[i].0);
    }
}

/// Law: a read at the sequence number of a put gives back the value put,
/// with that sequence number.
pub proof fn law_put_then_get(
    m: Map<(Seq<u8>, u64), (ValueType, Seq<u8>)>,
    key: Seq<u8>,
    value: Seq<u8>,
    seq: u64,
    r: Option<(Seq<u8>, u64)>,
)
    requires
        read_at(m.insert((key, order_of(seq)), (ValueType::Value, value)), key, seq, r),
    ensures
        r == Some((value, seq)),
{
    let m2 = m.insert((key, order_of(seq)), (ValueType::Value, value));
    let vs = choose|vs: Seq<(u64, (ValueType, Seq<u8>))>| #[trigger] lists_versions(vs, m2, key, order_of(seq) as int)
        && r == read_versions(vs);
    lemma_listing_starts_at(vs, m2, key, order_of(seq));
}

/// Law: a read at the sequence number of a delete finds nothing.
pub proof fn law_delete_then_get(
    m: Map<(Seq<u8>, u64), (ValueType, Seq<u8>)>,
    key: Seq<u8>,
    seq: u64,
    r: Option<(Seq<u8>, u64)>,
)
    requires
        read_at(m.insert((key, order_of(seq)), (ValueType::Deletion, Seq::<u8>::empty())), key, seq, r),
    ensures
        r is None,
{
    let m2 = m.insert((key, order_of(seq)), (ValueType::Deletion, Seq::<u8>::empty()));
    let vs = choose|vs: Seq<(u64, (ValueType, Seq<u8>))>| #[trigger] lists_versions(vs, m2, key, order_of(seq) as int)
        && r == read_versions(vs);
    lemma_listing_starts_at(vs, m2, key, order_of(seq));
}

/// Law: a write with a sequence number above a snapshot leaves every read
/// at that snapshot as it was.
pub proof fn law_snapshot_isolation(
    m: Map<(Seq<u8>, u64), (ValueType, Seq<u8>)>,
    key: Seq<u8>,
    snapshot_seq: u64,
    write_key: Seq<u8>,
    write_seq: u64,
    written: (ValueType, Seq<u8>),
    r: Option<(Seq<u8>, u64)>,
)
    requires
        snapshot_seq < write_seq,
        read_at(m, key, snapshot_seq, r),
    ensures
        read_at(m.insert((write_key, order_of(write_seq)), written), key, snapshot_seq, r),
{
    let m2 = m.insert((write_key, order_of(write_seq)), written);
    let from = order_of(snapshot_seq) as int;
    let vs = choose|vs: Seq<(u64, (ValueType, Seq<u8>))>| #[trigger] lists_versions(vs, m, key, from)
        && r == read_versions(vs);
    assert forall|i: int| 0 <= i < vs.len() implies {
        &&& (#[trigger] vs[i]).0 >= from
        &&& m2.contains_key((key, vs[i].0))
        &&& m2[(key, vs[i].0)] == vs[i].1
    } by {
        assert((key, vs[i].0) != (write_key, order_of(write_seq)));
    }
    assert forall|n: u64| n >= from && #[trigger] m2.contains_key((key, n)) implies exists|i: int|
        0 <= i < vs.len() && vs[i].0 == n by {
        assert((key, n) != (write_key, order_of(write_seq)));
        assert(m.contains_key((key, n)));
    }
    assert(lists_versions(vs, m2, key, from));
}

/// The entry of a key over its versions listed newest first, with the merge
/// operands `ops` met so far: operands are gathered until a value or a
/// deletion; that base is the entry when no operand came before it, and
/// otherwise the operands are.
pub open spec fn entry_of_versions(vs: Seq<(u64, (ValueType, Seq<u8>))>, ops: Seq<Seq<u8>>) -> Option<EntryView>
    decreases vs.len(),
{
    if vs.len() == 0 {
        if ops.len() > 0 {
            Some(EntryView::Merge(ops))
        } else {
            None
        }
    } else {
        let kind = vs[0].1.0;
        let val = vs[0].1.1;
        if kind == ValueType::Value {
            if ops.len() == 0 {
                Some(EntryView::Value(val))
            } else {
                Some(EntryView::Merge(ops))
            }
        } else if kind == ValueType::Deletion {
            if ops.len() == 0 {
                Some(EntryView::Tombstone)
            } else {
                Some(EntryView::Merge(ops))
            }
        } else if kind == ValueType::Merge {
            entry_of_versions(vs.skip(1), ops.push(val))
        } else {
            entry_of_versions(vs.skip(1), ops)
        }
    }
}

/// Whether `r` is the entry of `key` in `m` over all its versions.
pub open spec fn entry_at(m: Map<(Seq<u8>, u64), (ValueType, Seq<u8>)>, key: Seq<u8>, r: Option<EntryView>) -> bool {
    exists|vs: Seq<(u64, (ValueType, Seq<u8>))>| #[trigger] lists_versions(vs, m, key, 0)
        && r == entry_of_versions(vs, Seq::empty())
}

/// Law: after a value is written as the newest version of a key, the
/// key's entry is that value.
pub proof fn law_put_entry_then_get_entry(
    m: Map<(Seq<u8>, u64), (ValueType, Seq<u8>)>,
    key: Seq<u8>,
    value: Seq<u8>,
    r: Option<EntryView>,
)
    requires
        entry_at(m.insert((key, 0), (ValueType::Value, value)), key, r),
    ensures
        r == Some(EntryView::Value(value)),
{
    let m2 = m.insert((key, 0), (ValueType::Value, value));
    let vs = choose|vs: Seq<(u64, (ValueType, Seq<u8>))>| #[trigger] lists_versions(vs, m2, key, 0)
        && r == entry_of_versions(vs, Seq::empty());
    lemma_listing_starts_at(vs, m2, key, 0);
}

/// Law: after a tombstone is written as the newest version of a key, the
/// key's entry is the tombstone.
pub proof fn law_delete_entry_then_get_entry(
    m: Map<(Seq<u8>, u64), (ValueType, Seq<u8>)>,
    key: Seq<u8>,
    r: Option<EntryView>,
)
    requires
        entry_at(m.insert((key, 0), (ValueType::Deletion, Seq::<u8>::empty())), key, r),
    ensures
        r == Some(EntryView::Tombstone),
{
    let m2 = m.insert((key, 0), (ValueType::Deletion, Seq::<u8>::empty()));
    let vs = choose|vs: Seq<(u64, (ValueType, Seq<u8>))>| #[trigger] lists_versions(vs, m2, key, 0)
        && r == entry_of_versions(vs, Seq::empty());
    lemma_listing_starts_at(vs, m2, key, 0);
}

/// The view of an optional entry.
pub open spec fn opt_entry_view(r: Option<Entry>) -> Option<EntryView> {
    match r {
        Some(e) => Some(entry_view(e)),
        None => None,
    }
}

/// The views of merge operands.
pub open spec fn ops_view(ops: Seq<Vec<u8>>) -> Seq<Seq<u8>> {
    ops.map_values(|o: Vec<u8>| o@)
}

/// The entry a range scan yields for a key's versions listed newest first:
/// its latest entry, as `get_entry` gives it.
pub open spec fn scan_entry(vs: Seq<(u64, (ValueType, Seq<u8>))>) -> Option<EntryView> {
    entry_of_versions(vs, Seq::empty())
}

/// Whether user key `k` lies in the scan from `start` (inclusive) to `end`
/// (exclusive, when given).
pub open spec fn in_scan(k: Seq<u8>, start: Seq<u8>, end: Option<Seq<u8>>) -> bool {
    !lex_lt(k, start) && (end matches Some(e) ==> lex_lt(k, e))
}

/// Whether some element of `out` has user key `k`.
pub open spec fn yields_key(out: Seq<(Seq<u8>, EntryView)>, k: Seq<u8>) -> bool {
    exists|i: int| 0 <= i < out.len() && #[trigger] out[i].0 == k
}

/// Whether `e` is the scan entry of `k` in `m`.
pub open spec fn has_scan_entry(m: Map<(Seq<u8>, u64), (ValueType, Seq<u8>)>, k: Seq<u8>, e: EntryView) -> bool {
    exists|vs: Seq<(u64, (ValueType, Seq<u8>))>| #[trigger] lists_versions(vs, m, k, 0) && scan_entry(vs) == Some(e)
}

/// Whether `out` is the scan of `m` from `start` to `end`: the user keys in
/// range, in increasing order, each once with its scan entry, leaving out
/// only keys with no scan entry.
pub open spec fn scans(
    out: Seq<(Seq<u8>, EntryView)>,
    m: Map<(Seq<u8>, u64), (ValueType, Seq<u8>)>,
    start: Seq<u8>,
    end: Option<Seq<u8>>,
) -> bool {
    &&& forall|i: int, j: int| 0 <= i < j < out.len() ==> lex_lt(#[trigger] out[i].0, #[trigger] out[j].0)
    &&& forall|i: int| 0 <= i < out.len() ==> in_scan((#[trigger] out[i]).0, start, end)
    &&& forall|i: int| 0 <= i < out.len() ==> has_scan_entry(m, (#[trigger] out[i]).0, out[i].1)
    &&& forall|k: Seq<u8>, vs: Seq<(u64, (ValueType, Seq<u8>))>|
        in_scan(k, start, end) && #[trigger] lists_versions(vs, m, k, 0) && scan_entry(vs) is Some
            ==> yields_key(out, k)
}

/// The view of scanned pairs.
pub open spec fn scan_view(out: Seq<(Vec<u8>, Entry)>) -> Seq<(Seq<u8>, EntryView)> {
    out.map_values(|p: (Vec<u8>, Entry)| (p.0@, entry_view(p.1)))
}

/// Lemma: in a listing of a range that starts at order number 0 and ends,
/// if at all, at order number 0, the entries from a change of user key on
/// list the range from that key's first version on.
proof fn lemma_group_start(
    pv: Seq<((Seq<u8>, u64), (ValueType, Seq<u8>))>,
    m: Map<(Seq<u8>, u64), (ValueType, Seq<u8>)>,
    lo: (Seq<u8>, u64),
    hi: Option<(Seq<u8>, u64)>,
    i: int,
)
    requires
        lists_range(pv, m, lo, hi),
        lo.1 == 0,
        hi matches Some(h) ==> h.1 == 0,
        0 <= i < pv.len(),
        i == 0 || pv[i - 1].0.0 != pv[i].0.0,
    ensures
        lists_range(pv.skip(i), m, (pv[i].0.0, 0), hi),
        hi matches Some(h) ==> lex_lt(pv[i].0.0, h.0),
        !lex_lt(pv[i].0.0, lo.0),
{
    let k = pv[i].0.0;
    let q = pv.skip(i);
    lemma_lex_irreflexive(k);
    assert(!okey_lt(pv[i].0, lo));
    if let Some(h) = hi {
        assert(okey_lt(pv[i].0, h));
    }
    assert forall|a: int, b: int| 0 <= a < b < q.len() implies okey_lt(#[trigger] q[a].0, #[trigger] q[b].0) by {
        assert(q[a] == pv[a + i] && q[b] == pv[b + i]);
    }
    assert forall|a: int| 0 <= a < q.len() implies {
        &&& m.contains_key((#[trigger] q[a]).0)
        &&& m[q[a].0] == q[a].1
        &&& !okey_lt(q[a].0, (k, 0))
        &&& (hi matches Some(h) ==> okey_lt(q[a].0, h))
    } by {
        assert(q[a] == pv[a + i]);
        if a > 0 {
            assert(okey_lt(pv[i].0, pv[a + i].0));
            if okey_lt(pv[a + i].0, (k, 0)) {
                if lex_lt(pv[a + i].0.0, k) {
                    lemma_lex_total(pv[a + i].0.0, k);
                    if lex_lt(k, pv[a + i].0.0) {
                        lemma_lex_transitive(k, pv[a + i].0.0, k);
                    }
                }
            }
        }
    }
    assert forall|x: (Seq<u8>, u64)| #[trigger] m.contains_key(x) && !okey_lt(x, (k, 0)) && (hi matches Some(h)
        ==> okey_lt(x, h)) implies exists|a: int| 0 <= a < q.len() && q[a].0 == x by {
        // x is at least lo
        assert(!okey_lt(x, lo)) by {
            assert(!lex_lt(k, lo.0));
            assert(x.0 == k || lex_lt(k, x.0)) by {
                lemma_lex_total(x.0, k);
            }
            if lex_lt(x.0, lo.0) && lex_lt(k, x.0) {
                lemma_lex_transitive(k, x.0, lo.0);
            }
        }
        let t = choose|t: int| 0 <= t < pv.len() && pv[t].0 == x;
        if t < i {
            // pv[t] <= pv[i - 1], whose key is below k; but x is at least (k, 0)
            let p = pv[i - 1].0;
            assert(okey_lt(p, pv[i].0));
            lemma_lex_total(p.0, k);
            assert(lex_lt(p.0, k));
            if t < i - 1 {
                assert(okey_lt(pv[t].0, p));
                if lex_lt(x.0, p.0) {
                    lemma_lex_transitive(x.0, p.0, k);
                }
            }
            assert(lex_lt(x.0, k));
            assert(okey_lt(x, (k, 0)));
        }
        assert(q[t - i].0 == x);
    }
}

/// Order numbers and stored values of listed entries.
pub open spec fn strip(pv: Seq<((Seq<u8>, u64), (ValueType, Seq<u8>))>) -> Seq<(u64, (ValueType, Seq<u8>))> {
    pv.map_values(|e: ((Seq<u8>, u64), (ValueType, Seq<u8>))| (e.0.1, e.1))
}

/// Number of leading entries whose user key is `key`.
pub open spec fn lead(pv: Seq<((Seq<u8>, u64), (ValueType, Seq<u8>))>, key: Seq<u8>) -> nat
    decreases pv.len(),
{
    if pv.len() == 0 || pv[0].0.0 != key {
        0
    } else {
        1 + lead(pv.skip(1), key)
    }
}

/// Lemma: the leading run of `key` is a prefix, followed by another key.
proof fn lemma_lead(pv: Seq<((Seq<u8>, u64), (ValueType, Seq<u8>))>, key: Seq<u8>)
    ensures
        lead(pv, key) <= pv.len(),
        forall|t: int| 0 <= t < lead(pv, key) ==> (#[trigger] pv[t]).0.0 == key,
        lead(pv, key) < pv.len() ==> pv[lead(pv, key) as int].0.0 != key,
    decreases pv.len(),
{
    if pv.len() > 0 && pv[0].0.0 == key {
        lemma_lead(pv.skip(1), key);
        assert forall|t: int| 0 <= t < lead(pv, key) implies (#[trigger] pv[t]).0.0 == key by {
            if t > 0 {
                assert(pv[t] == pv.skip(1)[t - 1]);
            }
        }
        if lead(pv, key) < pv.len() {
            assert(pv[lead(pv, key) as int] == pv.skip(1)[lead(pv.skip(1), key) as int]);
        }
    }
}

/// Lemma: listing the entries from `(key, from)` on, the leading run of
/// `key` lists the versions of `key` from order number `from` on.
proof fn lemma_run_lists_versions(
    pv: Seq<((Seq<u8>, u64), (ValueType, Seq<u8>))>,
    m: Map<(Seq<u8>, u64), (ValueType, Seq<u8>)>,
    key: Seq<u8>,
    from: u64,
    hi: Option<(Seq<u8>, u64)>,
)
    requires
        lists_range(pv, m, (key, from), hi),
        hi matches Some(h) ==> lex_lt(key, h.0),
    ensures
        lists_versions(strip(pv.take(lead(pv, key) as int)), m, key, from as int),
{
    lemma_lead(pv, key);
    let l = lead(pv, key) as int;
    let vs = strip(pv.take(l));
    assert forall|i: int, j: int| 0 <= i < j < vs.len() implies (#[trigger] vs[i]).0 < (#[trigger] vs[j]).0 by {
        assert(okey_lt(pv[i].0, pv[j].0));
        assert(pv[i].0.0 == key && pv[j].0.0 == key);
        lemma_lex_irreflexive(key);
    }
    assert forall|i: int| 0 <= i < vs.len() implies {
        &&& (#[trigger] vs[i]).0 >= from
        &&& m.contains_key((key, vs[i].0))
        &&& m[(key, vs[i].0)] == vs[i].1
    } by {
        assert(pv[i].0.0 == key);
        assert(!okey_lt(pv[i].0, (key, from)));
        lemma_lex_irreflexive(key);
        assert(pv[i].0 == (key, vs[i].0));
    }
    assert forall|n: u64| n >= from && #[trigger] m.contains_key((key, n)) implies exists|i: int|
        0 <= i < vs.len() && vs[i].0 == n by {
        lemma_lex_irreflexive(key);
        assert(!okey_lt((key, n), (key, from)));
        if let Some(h) = hi {
            lemma_lex_total(key, h.0);
            assert(okey_lt((key, n), h));
        }
        let i = choose|i: int| 0 <= i < pv.len() && pv[i].0 == (key, n);
        if i >= l {
            let d = pv[l].0.0;
            assert(d != key);
            assert(!okey_lt(pv[l].0, (key, from)));
            lemma_lex_total(key, d);
            assert(lex_lt(key, d));
            if i > l {
                assert(okey_lt(pv[l].0, pv[i].0));
                if lex_lt(d, key) {
                    lemma_lex_transitive(key, d, key);
                }
                lemma_lex_total(d, key);
            }
        }
        assert(vs[i].0 == n);
    }
}

/// A pair of bytes and a number as byte strings.
pub open spec fn pair_view(r: Option<(Vec<u8>, u64)>) -> Option<(Seq<u8>, u64)> {
    match r {
        Some(p) => Some((p.0@, p.1)),
        None => None,
    }
}

/// Copies a byte string.
pub(crate) fn copy_value(b: &[u8]) -> (r: Vec<u8>)
    ensures
        r@ == b@,
{
    copy_bytes(b)
}

/// Copies a byte string.
fn copy_bytes(b: &[u8]) -> (r: Vec<u8>)
    ensures
        r@ == b@,
{
    let r = copy_range(b, 0, b.len());
    proof {
        assert(b@.subrange(0, b@.len() as int) =~= b@);
    }
    r
}

/// The user-key end of an order-key bound.
pub open spec fn end_of(hi: Option<(Seq<u8>, u64)>) -> Option<Seq<u8>> {
    match hi {
        Some(h) => Some(h.0),
        None => None,
    }
}

/// Lemma: a key in the scan with some version has a version in the listing.
proof fn lemma_key_listed(
    pv: Seq<((Seq<u8>, u64), (ValueType, Seq<u8>))>,
    m: Map<(Seq<u8>, u64), (ValueType, Seq<u8>)>,
    lo: (Seq<u8>, u64),
    hi: Option<(Seq<u8>, u64)>,
    k: Seq<u8>,
    vs: Seq<(u64, (ValueType, Seq<u8>))>,
)
    requires
        lists_range(pv, m, lo, hi),
        lo.1 == 0,
        hi matches Some(h) ==> h.1 == 0,
        in_scan(k, lo.0, end_of(hi)),
        lists_versions(vs, m, k, 0),
        vs.len() > 0,
    ensures
        exists|t: int| 0 <= t < pv.len() && #[trigger] pv[t].0.0 == k,
{
    let x = (k, vs[0].0);
    assert(m.contains_key(x));
    assert(!okey_lt(x, lo));
    if let Some(h) = hi {
        assert(okey_lt(x, h));
    }
    let t = choose|t: int| 0 <= t < pv.len() && pv[t].0 == x;
    assert(pv[t].0.0 == k);
}

/// Lemma: a scan entry needs at least one version.
proof fn lemma_scan_entry_nonempty(vs: Seq<(u64, (ValueType, Seq<u8>))>)
    requires
        scan_entry(vs) is Some,
    ensures
        vs.len() > 0,
{
    if vs.len() == 0 {
        assert(entry_of_versions(vs, Seq::empty()) is None);
    }
}

/// The scan entry of the run of entries that starts at `i`: its user key,
/// the entry, and where the run ends.
fn scan_group(list: &Vec<(OrderKey, Stored)>, i: usize) -> (res: (Vec<u8>, Option<Entry>, usize))
    requires
        i < list@.len(),
    ensures
        res.0@ == pairs_view(list@)[i as int].0.0,
        res.2 == i + lead(pairs_view(list@).skip(i as int), res.0@),
        opt_entry_view(res.1) == scan_entry(
            strip(pairs_view(list@).skip(i as int).take(lead(pairs_view(list@).skip(i as int), res.0@) as int)),
        ),
{
    let ghost pv = pairs_view(list@);
    let k = copy_bytes(list[i].0.0.as_slice());
    let ghost q = pv.skip(i as int);
    proof {
        lemma_lead(q, k@);
        assert(q[0] == pv[i as int]);
    }
    let ghost g = lead(q, k@);
    let ghost vs = strip(q.take(g as int));
    assert(vs.skip(0) =~= vs);
    let mut ops: Vec<Vec<u8>> = Vec::new();
    let mut result: Option<Entry> = None;
    let mut decided = false;
    let mut j: usize = i;
    assert(ops_view(ops@) =~= Seq::<Seq<u8>>::empty());
    while j < list.len() && bytes_eq(list[j].0.0.as_slice(), k.as_slice())
        invariant
            pv == pairs_view(list@),
            q == pv.skip(i as int),
            i <= j <= pv.len(),
            j - i <= g,
            g <= q.len(),
            vs == strip(q.take(g as int)),
            forall|t: int| 0 <= t < g ==> (#[trigger] q[t]).0.0 == k@,
            g < q.len() ==> q[g as int].0.0 != k@,
            !decided ==> scan_entry(vs) == entry_of_versions(vs.skip(j - i), ops_view(ops@)),
            decided ==> scan_entry(vs) == opt_entry_view(result),
        decreases pv.len() - j,
    {
        let kind = list[j].1.0;
        proof {
            assert(q[j - i] == pv[j as int]);
            assert(pv[j as int].0.0 == list@[j as int].0.0@);
            assert(j - i < g);
            assert(vs.skip(j - i)[0] == vs[j - i]);
            assert(vs[j - i] == (list@[j as int].0.1, (kind, list@[j as int].1.1@)));
            assert(vs.skip(j - i).skip(1) =~= vs.skip(j - i + 1));
        }
        if !decided {
            match kind {
                ValueType::Merge => {
                    let op = copy_bytes(list[j].1.1.as_slice());
                    let ghost before = ops_view(ops@);
                    ops.push(op);
                    proof {
                        assert(ops_view(ops@) =~= before.push(op@));
                    }
                },
                ValueType::Value => {
                    let mut taken: Vec<Vec<u8>> = Vec::new();
                    std::mem::swap(&mut taken, &mut ops);
                    result = if taken.len() == 0 {
                        Some(Entry::Value(copy_bytes(list[j].1.1.as_slice())))
                    } else {
                        Some(Entry::Merge(taken))
                    };
                    decided = true;
                },
                ValueType::Deletion => {
                    let mut taken: Vec<Vec<u8>> = Vec::new();
                    std::mem::swap(&mut taken, &mut ops);
                    result = if taken.len() == 0 {
                        Some(Entry::Tombstone)
                    } else {
                        Some(Entry::Merge(taken))
                    };
                    decided = true;
                },
                ValueType::Log => {},
            }
        }
        j = j + 1;
    }
    proof {
        if j < pv.len() {
            assert(q[j - i] == pv[j as int]);
            assert(pv[j as int].0.0 == list@[j as int].0.0@);
        }
        assert(j - i == g);
        assert(vs.skip(j - i) =~= Seq::<(u64, (ValueType, Seq<u8>))>::empty());
    }
    if !decided {
        result = if ops.len() > 0 {
            Some(Entry::Merge(ops))
        } else {
            None
        };
    }
    (k, result, j)
}

/// Whether `ov` is a scan of `m` as far as the keys of `pv` before `i`.
pub open spec fn scanned_upto(
    ov: Seq<(Seq<u8>, EntryView)>,
    pv: Seq<((Seq<u8>, u64), (ValueType, Seq<u8>))>,
    m: Map<(Seq<u8>, u64), (ValueType, Seq<u8>)>,
    start: Seq<u8>,
    end: Option<Seq<u8>>,
    i: int,
) -> bool {
    &&& 0 <= i <= pv.len()
    &&& 0 < i < pv.len() ==> pv[i - 1].0.0 != pv[i].0.0
    &&& forall|o: int| 0 <= o < ov.len() ==> exists|t: int| 0 <= t < i && (#[trigger] ov[o]).0 == pv[t].0.0
    &&& i < pv.len() ==> forall|t: int| 0 <= t < i ==> lex_lt((#[trigger] pv[t]).0.0, pv[i].0.0)
    &&& forall|a: int, b: int| 0 <= a < b < ov.len() ==> lex_lt(#[trigger] ov[a].0, #[trigger] ov[b].0)
    &&& forall|o: int| 0 <= o < ov.len() ==> in_scan((#[trigger] ov[o]).0, start, end)
    &&& forall|o: int| 0 <= o < ov.len() ==> has_scan_entry(m, (#[trigger] ov[o]).0, ov[o].1)
    &&& forall|k2: Seq<u8>, vs2: Seq<(u64, (ValueType, Seq<u8>))>|
        in_scan(k2, start, end) && #[trigger] lists_versions(vs2, m, k2, 0) && scan_entry(vs2) is Some
            && (i == pv.len() || lex_lt(k2, pv[i].0.0)) ==> yields_key(ov, k2)
}

/// Lemma: nothing is scanned before the first listed entry.
proof fn lemma_scan_begin(
    pv: Seq<((Seq<u8>, u64), (ValueType, Seq<u8>))>,
    m: Map<(Seq<u8>, u64), (ValueType, Seq<u8>)>,
    lo: (Seq<u8>, u64),
    hi: Option<(Seq<u8>, u64)>,
)
    requires
        lists_range(pv, m, lo, hi),
        lo.1 == 0,
        hi matches Some(h) ==> h.1 == 0,
    ensures
        scanned_upto(Seq::empty(), pv, m, lo.0, end_of(hi), 0),
{
    let ov = Seq::<(Seq<u8>, EntryView)>::empty();
    assert forall|k2: Seq<u8>, vs2: Seq<(u64, (ValueType, Seq<u8>))>|
        in_scan(k2, lo.0, end_of(hi)) && #[trigger] lists_versions(vs2, m, k2, 0) && scan_entry(vs2) is Some
            && (0 == pv.len() || lex_lt(k2, pv[0].0.0)) implies yields_key(ov, k2) by {
        lemma_scan_entry_nonempty(vs2);
        lemma_key_listed(pv, m, lo, hi, k2, vs2);
        let t = choose|t: int| 0 <= t < pv.len() && #[trigger] pv[t].0.0 == k2;
        if t > 0 {
            assert(okey_lt(pv[0].0, pv[t].0));
            lemma_lex_total(k2, pv[0].0.0);
            if lex_lt(pv[0].0.0, k2) {
                lemma_lex_transitive(k2, pv[0].0.0, k2);
            }
        }
        lemma_lex_irreflexive(k2);
    }
}

/// Lemma: scanning the run of entries from `i` to `j` extends a scan.
proof fn lemma_scan_step(
    pv: Seq<((Seq<u8>, u64), (ValueType, Seq<u8>))>,
    m: Map<(Seq<u8>, u64), (ValueType, Seq<u8>)>,
    lo: (Seq<u8>, u64),
    hi: Option<(Seq<u8>, u64)>,
    ov: Seq<(Seq<u8>, EntryView)>,
    i: int,
    j: int,
    e: Option<EntryView>,
)
    requires
        lists_range(pv, m, lo, hi),
        lo.1 == 0,
        hi matches Some(h) ==> h.1 == 0,
        scanned_upto(ov, pv, m, lo.0, end_of(hi), i),
        i < pv.len(),
        j == i + lead(pv.skip(i), pv[i].0.0),
        e == scan_entry(strip(pv.skip(i).take(j - i))),
    ensures
        scanned_upto(
            match e {
                Some(x) => ov.push((pv[i].0.0, x)),
                None => ov,
            },
            pv,
            m,
            lo.0,
            end_of(hi),
            j,
        ),
{
    let k = pv[i].0.0;
    let q = pv.skip(i);
    let end = end_of(hi);
    lemma_group_start(pv, m, lo, hi, i);
    lemma_run_lists_versions(q, m, k, 0, hi);
    lemma_lead(q, k);
    assert(q[0] == pv[i]);
    let vs = strip(q.take(j - i));
    let ov2 = match e {
        Some(x) => ov.push((k, x)),
        None => ov,
    };
    assert(j > i);
    assert forall|o: int| 0 <= o < ov.len() implies ov2[o] == ov[o] by {}
    if j < pv.len() {
        assert(pv[j - 1] == q[j - 1 - i]);
        assert(q[j - i] == pv[j]);
        assert(okey_lt(pv[j - 1].0, pv[j].0));
        assert(lex_lt(k, pv[j].0.0)) by {
            lemma_lex_irreflexive(k);
        }
        assert forall|t: int| 0 <= t < j implies lex_lt((#[trigger] pv[t]).0.0, pv[j].0.0) by {
            if t < i {
                lemma_lex_transitive(pv[t].0.0, k, pv[j].0.0);
            } else {
                assert(pv[t] == q[t - i]);
            }
        }
    }
    assert forall|o: int| 0 <= o < ov2.len() implies exists|t: int| 0 <= t < j && (#[trigger] ov2[o]).0 == pv[t].0.0 by {
        if o < ov.len() {
            let t = choose|t: int| 0 <= t < i && (#[trigger] ov[o]).0 == pv[t].0.0;
            assert(ov2[o].0 == pv[t].0.0);
        } else {
            assert(ov2[o].0 == pv[i].0.0);
        }
    }
    assert forall|a: int, b: int| 0 <= a < b < ov2.len() implies lex_lt(#[trigger] ov2[a].0, #[trigger] ov2[b].0) by {
        if b >= ov.len() {
            let t = choose|t: int| 0 <= t < i && (#[trigger] ov[a]).0 == pv[t].0.0;
            assert(lex_lt(pv[t].0.0, pv[i].0.0));
        } else {
            assert(ov2[a] == ov[a] && ov2[b] == ov[b]);
        }
    }
    assert forall|o: int| 0 <= o < ov2.len() implies in_scan((#[trigger] ov2[o]).0, lo.0, end) by {
        if o < ov.len() {
            assert(ov2[o] == ov[o]);
        }
    }
    assert forall|o: int| 0 <= o < ov2.len() implies has_scan_entry(m, (#[trigger] ov2[o]).0, ov2[o].1) by {
        if o < ov.len() {
            assert(ov2[o] == ov[o]);
        } else {
            assert(lists_versions(vs, m, ov2[o].0, 0));
        }
    }
    assert forall|k2: Seq<u8>, vs2: Seq<(u64, (ValueType, Seq<u8>))>|
        in_scan(k2, lo.0, end) && #[trigger] lists_versions(vs2, m, k2, 0) && scan_entry(vs2) is Some
            && (j == pv.len() || lex_lt(k2, pv[j].0.0)) implies yields_key(ov2, k2) by {
        lemma_scan_entry_nonempty(vs2);
        lemma_key_listed(pv, m, lo, hi, k2, vs2);
        let t = choose|t: int| 0 <= t < pv.len() && #[trigger] pv[t].0.0 == k2;
        lemma_lex_irreflexive(k2);
        if t < i {
            assert(lex_lt(k2, pv[i].0.0));
            let o = choose|o: int| 0 <= o < ov.len() && #[trigger] ov[o].0 == k2;
            assert(ov2[o].0 == k2);
        } else if t < j {
            assert(pv[t] == q[t - i]);
            assert(k2 == k);
            lemma_listing_unique(vs2, vs, m, k, 0);
            assert(ov2[ov.len() as int].0 == k2);
        } else {
            if t > j {
                assert(okey_lt(pv[j].0, pv[t].0));
                if lex_lt(pv[j].0.0, k2) {
                    lemma_lex_transitive(k2, pv[j].0.0, k2);
                }
            }
        }
    }
    assert(j <= pv.len());
    if 0 < j < pv.len() {
        assert(pv[j - 1] == q[j - 1 - i]);
        assert(pv[j] == q[j - i]);
        assert(pv[j - 1].0.0 != pv[j].0.0);
    }
    assert(scanned_upto(ov2, pv, m, lo.0, end, j));
}

/// Groups listed entries by user key into scan entries.
fn scan_list(
    list: &Vec<(OrderKey, Stored)>,
    Ghost(m): Ghost<Map<(Seq<u8>, u64), (ValueType, Seq<u8>)>>,
    Ghost(lo): Ghost<(Seq<u8>, u64)>,
    Ghost(hi): Ghost<Option<(Seq<u8>, u64)>>,
) -> (r: Vec<(Vec<u8>, Entry)>)
    requires
        lists_range(pairs_view(list@), m, lo, hi),
        lo.1 == 0,
        hi matches Some(h) ==> h.1 == 0,
    ensures
        scans(scan_view(r@), m, lo.0, end_of(hi)),
{
    let ghost pv = pairs_view(list@);
    let mut out: Vec<(Vec<u8>, Entry)> = Vec::new();
    let mut i: usize = 0;
    proof {
        lemma_scan_begin(pv, m, lo, hi);
        assert(scan_view(out@) =~= Seq::<(Seq<u8>, EntryView)>::empty());
    }
    while i < list.len()
        invariant
            pv == pairs_view(list@),
            lists_range(pv, m, lo, hi),
            lo.1 == 0,
            hi matches Some(h) ==> h.1 == 0,
            i <= pv.len(),
            scanned_upto(scan_view(out@), pv, m, lo.0, end_of(hi), i as int),
        decreases pv.len() - i,
    {
        let (k, entry, j) = scan_group(list, i);
        proof {
            lemma_scan_step(pv, m, lo, hi, scan_view(out@), i as int, j as int, opt_entry_view(entry));
        }
        let ghost out_before = scan_view(out@);
        match entry {
            Some(e) => {
                out.push((k, e));
                proof {
                    assert(scan_view(out@) =~= out_before.push((k@, entry_view(e))));
                }
            },
            None => {},
        }
        i = j;
    }
    proof {
        let ov = scan_view(out@);
        assert(i == pv.len());
        assert forall|k2: Seq<u8>, vs2: Seq<(u64, (ValueType, Seq<u8>))>|
            in_scan(k2, lo.0, end_of(hi)) && #[trigger] lists_versions(vs2, m, k2, 0) && scan_entry(vs2) is Some
                implies yields_key(ov, k2) by {
        }
        assert(scans(ov, m, lo.0, end_of(hi)));
    }
    out
}

/// Reverses a vector.
fn reversed<T>(v: Vec<T>) -> (r: Vec<T>)
    ensures
        r@ == v@.reverse(),
{
    let ghost orig = v@;
    let n = v.len();
    let mut v = v;
    let mut r: Vec<T> = Vec::new();
    while v.len() > 0
        invariant
            n == orig.len(),
            v@.len() <= n,
            v@ == orig.take(v@.len() as int),
            r@.len() == n - v@.len(),
            forall|t: int| 0 <= t < r@.len() ==> #[trigger] r@[t] == orig[n - 1 - t],
        decreases v@.len(),
    {
        let ghost before = v@;
        let x = v.pop().unwrap();
        proof {
            assert(x == orig[before.len() - 1]);
            assert(v@ =~= orig.take(v@.len() as int));
        }
        r.push(x);
    }
    proof {
        assert(r@ =~= orig.reverse());
    }
    r
}

/// The order keys and stored values of versions handed out with their
/// internal keys.
pub open spec fn internal_view(out: Seq<(InternalKey, Vec<u8>)>) -> Seq<((Seq<u8>, u64), (ValueType, Seq<u8>))> {
    out.map_values(|e: (InternalKey, Vec<u8>)| ((e.0.user_key@, order_of(e.0.seq)), (e.0.kind, e.1@)))
}

/// Hands out listed versions with their internal keys.
fn to_internal(list: Vec<(OrderKey, Stored)>) -> (r: Vec<(InternalKey, Vec<u8>)>)
    ensures
        internal_view(r@) == pairs_view(list@),
{
    let ghost pv = pairs_view(list@);
    let n = list.len();
    let mut r: Vec<(InternalKey, Vec<u8>)> = Vec::new();
    for e in it: list
        invariant
            pv == pairs_view(it.seq()),
            n == pv.len(),
            r@.len() == it.index(),
            forall|t: int| 0 <= t < r@.len() ==> #[trigger] internal_view(r@)[t] == pv[t],
    {
        let ((user_key, ord), (kind, value)) = e;
        let ghost before = r@;
        proof {
            assert(it.seq()[it.index() as int] == ((user_key, ord), (kind, value)));
        }
        r.push((InternalKey { user_key, seq: u64::MAX - ord, kind }, value));
        proof {
            assert forall|t: int| 0 <= t < r@.len() implies #[trigger] internal_view(r@)[t] == pv[t] by {
                if t < before.len() {
                    assert(r@[t] == before[t]);
                    assert(internal_view(before)[t] == pv[t]);
                } else {
                    assert(pv[t] == ((user_key@, ord), (kind, value@)));
                }
            }
        }
    }
    proof {
        assert(internal_view(r@) =~= pv);
    }
    r
}

/// The size after writing merge operands `ops` for a key of `klen` bytes,
/// one after another, from size `size`.
pub open spec fn size_after_ops(size: usize, klen: nat, ops: Seq<Seq<u8>>) -> usize
    decreases ops.len(),
{
    if ops.len() == 0 {
        size
    } else {
        size_after_ops(size, klen, ops.drop_last()).wrapping_add((klen + ops.last().len() + 8) as usize)
    }
}

/// What one source of a point read holds for a key: a value, a deletion
/// marker, or nothing.
#[derive(Debug, Clone, PartialEq)]
pub enum TableLookup {
    /// The key's newest value.
    Value(Vec<u8>),
    /// The key's newest version deletes it.
    Tombstone,
    /// The source holds no value or deletion of the key.
    Absent,
}

/// The view of a lookup: `Some(Some(v))` a value, `Some(None)` a deletion,
/// `None` nothing.
pub open spec fn lookup_view(t: TableLookup) -> Option<Option<Seq<u8>>> {
    match t {
        TableLookup::Value(v) => Some(Some(v@)),
        TableLookup::Tombstone => Some(None),
        TableLookup::Absent => None,
    }
}

/// The lookup over versions listed newest first: the first value or
/// deletion decides; merge operands and log records are passed over.
pub open spec fn lookup_versions(vs: Seq<(u64, (ValueType, Seq<u8>))>) -> Option<Option<Seq<u8>>>
    decreases vs.len(),
{
    if vs.len() == 0 {
        None
    } else if vs[0].1.0 == ValueType::Value {
        Some(Some(vs[0].1.1))
    } else if vs[0].1.0 == ValueType::Deletion {
        Some(None)
    } else {
        lookup_versions(vs.skip(1))
    }
}

/// What memtable contents `m` hold for `key`: the lookup over all its
/// versions, newest first.
pub open spec fn memtable_read(m: Map<(Seq<u8>, u64), (ValueType, Seq<u8>)>, key: Seq<u8>) -> Option<Option<Seq<u8>>> {
    lookup_versions(choose|vs: Seq<(u64, (ValueType, Seq<u8>))>| lists_versions(vs, m, key, 0))
}

/// Law: after a put of `key` at a sequence number newer than every version
/// of `key` the memtable holds, the memtable holds the value put.
pub proof fn law_put_then_read(
    m: Map<(Seq<u8>, u64), (ValueType, Seq<u8>)>,
    key: Seq<u8>,
    value: Seq<u8>,
    seq: u64,
)
    requires
        forall|n: u64| #[trigger] m.contains_key((key, n)) ==> n > order_of(seq),
    ensures
        memtable_read(m.insert((key, order_of(seq)), (ValueType::Value, value)), key) == Some(Some(value)),
{
    let m2 = m.insert((key, order_of(seq)), (ValueType::Value, value));
    lemma_listing_exists(m2, key);
    let vs = choose|vs: Seq<(u64, (ValueType, Seq<u8>))>| lists_versions(vs, m2, key, 0);
    assert(lists_versions(vs, m2, key, 0));
    assert(m2.contains_key((key, order_of(seq))));
    let i = choose|i: int| 0 <= i < vs.len() && vs[i].0 == order_of(seq);
    if i > 0 {
        assert(vs[0].0 < vs[i].0);
        assert(m2.contains_key((key, vs[0].0)));
        assert(m.contains_key((key, vs[0].0)));
    }
    assert(vs[0] == (order_of(seq), (ValueType::Value, value)));
}

/// Law: after a delete of `key` at a sequence number newer than every
/// version of `key` the memtable holds, the memtable holds a deletion for
/// it: a read finds nothing.
pub proof fn law_delete_then_read(m: Map<(Seq<u8>, u64), (ValueType, Seq<u8>)>, key: Seq<u8>, seq: u64)
    requires
        forall|n: u64| #[trigger] m.contains_key((key, n)) ==> n > order_of(seq),
    ensures
        memtable_read(m.insert((key, order_of(seq)), (ValueType::Deletion, Seq::<u8>::empty())), key) == Some(
            None::<Seq<u8>>,
        ),
{
    let m2 = m.insert((key, order_of(seq)), (ValueType::Deletion, Seq::<u8>::empty()));
    lemma_listing_exists(m2, key);
    let vs = choose|vs: Seq<(u64, (ValueType, Seq<u8>))>| lists_versions(vs, m2, key, 0);
    assert(lists_versions(vs, m2, key, 0));
    assert(m2.contains_key((key, order_of(seq))));
    let i = choose|i: int| 0 <= i < vs.len() && vs[i].0 == order_of(seq);
    if i > 0 {
        assert(vs[0].0 < vs[i].0);
        assert(m2.contains_key((key, vs[0].0)));
        assert(m.contains_key((key, vs[0].0)));
    }
    assert(vs[0] == (order_of(seq), (ValueType::Deletion, Seq::<u8>::empty())));
}

/// Lemma: the versions of `key` with order numbers below `b` can be listed.
proof fn lemma_listing_below(m: Map<(Seq<u8>, u64), (ValueType, Seq<u8>)>, key: Seq<u8>, b: int) -> (vs: Seq<
    (u64, (ValueType, Seq<u8>)),
>)
    requires
        0 <= b <= u64::MAX + 1,
    ensures
        forall|i: int, j: int| 0 <= i < j < vs.len() ==> (#[trigger] vs[i]).0 < (#[trigger] vs[j]).0,
        forall|i: int| 0 <= i < vs.len() ==> {
            &&& (#[trigger] vs[i]).0 < b
            &&& m.contains_key((key, vs[i].0))
            &&& m[(key, vs[i].0)] == vs[i].1
        },
        forall|n: u64| n < b && #[trigger] m.contains_key((key, n)) ==> exists|i: int| 0 <= i < vs.len() && vs[i].0 == n,
    decreases b,
{
    if b == 0 {
        Seq::empty()
    } else {
        let prev = lemma_listing_below(m, key, b - 1);
        let n = (b - 1) as u64;
        if m.contains_key((key, n)) {
            let vs = prev.push((n, m[(key, n)]));
            assert forall|n2: u64| n2 < b && #[trigger] m.contains_key((key, n2)) implies exists|i: int|
                0 <= i < vs.len() && vs[i].0 == n2 by {
                if n2 < b - 1 {
                    let i = choose|i: int| 0 <= i < prev.len() && prev[i].0 == n2;
                    assert(vs[i] == prev[i]);
                } else {
                    assert(vs[prev.len() as int].0 == n2);
                }
            }
            assert forall|i: int, j: int| 0 <= i < j < vs.len() implies (#[trigger] vs[i]).0 < (#[trigger] vs[j]).0 by {
                assert(vs[i] == prev[i]);
            }
            vs
        } else {
            prev
        }
    }
}

/// Lemma: the versions of a key can always be listed.
pub proof fn lemma_listing_exists(m: Map<(Seq<u8>, u64), (ValueType, Seq<u8>)>, key: Seq<u8>)
    ensures
        exists|vs: Seq<(u64, (ValueType, Seq<u8>))>| lists_versions(vs, m, key, 0),
{
    let vs = lemma_listing_below(m, key, u64::MAX + 1);
    assert(lists_versions(vs, m, key, 0));
}

/// Default memtable capacity: 64 MiB.
pub const DEFAULT_CAPACITY: usize = 67108864;

/// In-memory sorted table of recent writes.
pub struct Memtable {
    data: SkipMap<OrderKey, Stored>,
    size: usize,
    capacity: usize,
}

impl Memtable {
    /// The versions held: (user key, order number) to kind and bytes.
    pub closed spec fn entries(&self) -> Map<(Seq<u8>, u64), (ValueType, Seq<u8>)> {
        skip_map_contents(self.data)
    }

    /// Well-formedness: finitely many versions.
    pub closed spec fn wf(&self) -> bool {
        self.entries().dom().finite()
    }

    /// Approximate size in bytes of what was written.
    pub closed spec fn spec_size(&self) -> usize {
        self.size
    }

    /// Size at which the memtable should be flushed.
    pub closed spec fn spec_capacity(&self) -> usize {
        self.capacity
    }

    /// Create an empty memtable with the given capacity.
    pub fn new(capacity: usize) -> (r: Self)
        ensures
            r.wf(),
            r.entries() == no_versions(),
            r.spec_size() == 0,
            r.spec_capacity() == capacity,
    {
        Memtable { data: skip_map_new(), size: 0, capacity }
    }

    /// Create an empty memtable with the default capacity (64 MiB).
    pub fn with_default_capacity() -> (r: Self)
        ensures
            r.wf(),
            r.entries() == no_versions(),
            r.spec_size() == 0,
            r.spec_capacity() == DEFAULT_CAPACITY,
    {
        Self::new(DEFAULT_CAPACITY)
    }

    /// Record a version of `key` at `seq`, counting `delta` bytes.
    fn insert_version(&mut self, key: Vec<u8>, seq: u64, kind: ValueType, value: Vec<u8>, delta: usize)
        requires
            old(self).wf(),
        ensures
            final(self).wf(),
            final(self).entries() == old(self).entries().insert((key@, order_of(seq)), (kind, value@)),
            final(self).spec_size() == old(self).spec_size().wrapping_add(delta),
            final(self).spec_capacity() == old(self).spec_capacity(),
    {
        let n = u64::MAX - seq;
        skip_map_insert(&mut self.data, (key, n), (kind, value));
        self.size = self.size.wrapping_add(delta);
    }

    /// Insert a key-value pair with sequence number `seq`; the size grows by
    /// the key and value lengths plus 8.
    pub fn put(&mut self, key: Vec<u8>, value: Vec<u8>, seq: u64)
        requires
            old(self).wf(),
            key@.len() + value@.len() + 8 <= usize::MAX,
        ensures
            final(self).wf(),
            final(self).entries() == old(self).entries().insert(
                (key@, order_of(seq)),
                (ValueType::Value, value@),
            ),
            final(self).spec_size() == old(self).spec_size().wrapping_add((key@.len() + value@.len() + 8) as usize),
            final(self).spec_capacity() == old(self).spec_capacity(),
    {
        let delta = key.len() + value.len() + 8;
        self.insert_version(key, seq, ValueType::Value, value, delta);
    }

    /// Delete `key` at sequence number `seq` by writing a tombstone; the size
    /// grows by the key length plus 8.
    pub fn delete(&mut self, key: Vec<u8>, seq: u64)
        requires
            old(self).wf(),
            key@.len() + 8 <= usize::MAX,
        ensures
            final(self).wf(),
            final(self).entries() == old(self).entries().insert(
                (key@, order_of(seq)),
                (ValueType::Deletion, Seq::<u8>::empty()),
            ),
            final(self).spec_size() == old(self).spec_size().wrapping_add((key@.len() + 8) as usize),
            final(self).spec_capacity() == old(self).spec_capacity(),
    {
        let delta = key.len() + 8;
        self.insert_version(key, seq, ValueType::Deletion, Vec::new(), delta);
    }

    /// Insert a merge operand for `key` at sequence number `seq`; the size
    /// grows by the key and operand lengths plus 8.
    pub fn merge(&mut self, key: Vec<u8>, value: Vec<u8>, seq: u64)
        requires
            old(self).wf(),
            key@.len() + value@.len() + 8 <= usize::MAX,
        ensures
            final(self).wf(),
            final(self).entries() == old(self).entries().insert(
                (key@, order_of(seq)),
                (ValueType::Merge, value@),
            ),
            final(self).spec_size() == old(self).spec_size().wrapping_add((key@.len() + value@.len() + 8) as usize),
            final(self).spec_capacity() == old(self).spec_capacity(),
    {
        let delta = key.len() + value.len() + 8;
        self.insert_version(key, seq, ValueType::Merge, value, delta);
    }

    /// The latest value of `key` visible at snapshot `snapshot_seq`, with its
    /// sequence number: the newest version not newer than the snapshot that
    /// is a value or a deletion decides (a deletion gives `None`).
    pub fn get(&self, key: &[u8], snapshot_seq: u64) -> (r: Option<(Vec<u8>, u64)>)
        ensures
            read_at(self.entries(), key@, snapshot_seq, pair_view(r)),
    {
        let lo: OrderKey = (copy_bytes(key), u64::MAX - snapshot_seq);
        let list = skip_map_range_from(&self.data, &lo);
        let ghost pv = pairs_view(list@);
        let ghost from = order_of(snapshot_seq);
        proof {
            lemma_run_lists_versions(pv, self.entries(), key@, from, None);
            lemma_lead(pv, key@);
        }
        let ghost l = lead(pv, key@);
        let ghost vs = strip(pv.take(l as int));
        assert(lists_versions(vs, self.entries(), key@, from as int));
        assert(vs.skip(0) =~= vs);
        let mut i: usize = 0;
        while i < list.len()
            invariant
                pv == pairs_view(list@),
                from == order_of(snapshot_seq),
                i <= l,
                l <= pv.len(),
                vs == strip(pv.take(l as int)),
                lists_versions(vs, self.entries(), key@, from as int),
                read_versions(vs) == read_versions(vs.skip(i as int)),
                forall|t: int| 0 <= t < l ==> (#[trigger] pv[t]).0.0 == key@,
                l < pv.len() ==> pv[l as int].0.0 != key@,
            decreases list.len() - i,
        {
            assert(pv[i as int].0.0 == list@[i as int].0.0@);
            if !bytes_eq(list[i].0.0.as_slice(), key) {
                proof {
                    assert(i == l);
                    assert(vs.skip(i as int) =~= Seq::<(u64, (ValueType, Seq<u8>))>::empty());
                    assert(read_at(self.entries(), key@, snapshot_seq, None));
                }
                return None;
            }
            let kind = list[i].1.0;
            proof {
                assert(vs.skip(i as int)[0] == vs[i as int]);
                assert(vs[i as int] == (list@[i as int].0.1, (kind, list@[i as int].1.1@)));
            }
            match kind {
                ValueType::Value => {
                    let v = copy_bytes(list[i].1.1.as_slice());
                    let r = Some((v, u64::MAX - list[i].0.1));
                    proof {
                        assert(read_versions(vs.skip(i as int)) == pair_view(r));
                        assert(read_at(self.entries(), key@, snapshot_seq, pair_view(r)));
                    }
                    return r;
                },
                ValueType::Deletion => {
                    proof {
                        assert(read_versions(vs.skip(i as int)) == None::<(Seq<u8>, u64)>);
                        assert(read_at(self.entries(), key@, snapshot_seq, None));
                    }
                    return None;
                },
                _ => {
                    proof {
                        assert(vs.skip(i as int).skip(1) =~= vs.skip(i + 1));
                    }
                },
            }
            i = i + 1;
        }
        proof {
            assert(vs.skip(i as int) =~= Seq::<(u64, (ValueType, Seq<u8>))>::empty());
            assert(read_at(self.entries(), key@, snapshot_seq, None));
        }
        None
    }

    /// What the memtable holds for `key` over all its versions, newest first:
    /// the merge operands written since the newest value or deletion if there
    /// are any, else that value or deletion; `None` if it holds neither.
    pub fn get_entry(&self, key: &[u8]) -> (r: Option<Entry>)
        ensures
            entry_at(self.entries(), key@, opt_entry_view(r)),
    {
        let lo: OrderKey = (copy_bytes(key), 0);
        let list = skip_map_range_from(&self.data, &lo);
        let ghost pv = pairs_view(list@);
        proof {
            lemma_run_lists_versions(pv, self.entries(), key@, 0, None);
            lemma_lead(pv, key@);
        }
        let ghost l = lead(pv, key@);
        let ghost vs = strip(pv.take(l as int));
        assert(lists_versions(vs, self.entries(), key@, 0));
        assert(vs.skip(0) =~= vs);
        let mut ops: Vec<Vec<u8>> = Vec::new();
        assert(ops_view(ops@) =~= Seq::<Seq<u8>>::empty());
        let mut i: usize = 0;
        while i < list.len()
            invariant
                pv == pairs_view(list@),
                i <= l,
                l <= pv.len(),
                vs == strip(pv.take(l as int)),
                lists_versions(vs, self.entries(), key@, 0),
                entry_of_versions(vs, Seq::empty()) == entry_of_versions(vs.skip(i as int), ops_view(ops@)),
                forall|t: int| 0 <= t < l ==> (#[trigger] pv[t]).0.0 == key@,
                l < pv.len() ==> pv[l as int].0.0 != key@,
            ensures
                i == l,
                entry_of_versions(vs, Seq::empty()) == entry_of_versions(vs.skip(i as int), ops_view(ops@)),
            decreases list.len() - i,
        {
            assert(pv[i as int].0.0 == list@[i as int].0.0@);
            if !bytes_eq(list[i].0.0.as_slice(), key) {
                proof {
                    assert(i == l);
                    assert(vs.skip(i as int) =~= Seq::<(u64, (ValueType, Seq<u8>))>::empty());
                }
                break;
            }
            let kind = list[i].1.0;
            proof {
                assert(vs.skip(i as int)[0] == vs[i as int]);
                assert(vs[i as int] == (list@[i as int].0.1, (kind, list@[i as int].1.1@)));
                assert(vs.skip(i as int).skip(1) =~= vs.skip(i + 1));
            }
            match kind {
                ValueType::Value => {
                    let r = if ops.len() == 0 {
                        Some(Entry::Value(copy_bytes(list[i].1.1.as_slice())))
                    } else {
                        Some(Entry::Merge(ops))
                    };
                    proof {
                        assert(entry_at(self.entries(), key@, opt_entry_view(r)));
                    }
                    return r;
                },
                ValueType::Deletion => {
                    let r = if ops.len() == 0 {
                        Some(Entry::Tombstone)
                    } else {
                        Some(Entry::Merge(ops))
                    };
                    proof {
                        assert(entry_at(self.entries(), key@, opt_entry_view(r)));
                    }
                    return r;
                },
                ValueType::Merge => {
                    let op = copy_bytes(list[i].1.1.as_slice());
                    let ghost before = ops_view(ops@);
                    ops.push(op);
                    proof {
                        assert(ops_view(ops@) =~= before.push(list@[i as int].1.1@));
                    }
                },
                ValueType::Log => {},
            }
            i = i + 1;
        }
        proof {
            assert(vs.skip(i as int) =~= Seq::<(u64, (ValueType, Seq<u8>))>::empty());
        }
        let r = if ops.len() > 0 {
            Some(Entry::Merge(ops))
        } else {
            None
        };
        proof {
            assert(entry_at(self.entries(), key@, opt_entry_view(r)));
        }
        r
    }

    /// Forward scan of the user keys from `start` (inclusive) to `end`
    /// (exclusive): each key once, in increasing order, with its latest
    /// entry as `get_entry` gives it; keys with no entry are left out.
    pub fn range(&self, start: &[u8], end: &[u8]) -> (r: Vec<(Vec<u8>, Entry)>)
        ensures
            scans(scan_view(r@), self.entries(), start@, Some(end@)),
    {
        let lo: OrderKey = (copy_bytes(start), 0);
        let hi: OrderKey = (copy_bytes(end), 0);
        let list = skip_map_range(&self.data, &lo, &hi);
        scan_list(&list, Ghost(self.entries()), Ghost((start@, 0u64)), Ghost(Some((end@, 0u64))))
    }

    /// Forward scan of the user keys from `start` (inclusive) to the end,
    /// with the entries of `range`.
    pub fn range_from(&self, start: &[u8]) -> (r: Vec<(Vec<u8>, Entry)>)
        ensures
            scans(scan_view(r@), self.entries(), start@, None),
    {
        let lo: OrderKey = (copy_bytes(start), 0);
        let list = skip_map_range_from(&self.data, &lo);
        scan_list(&list, Ghost(self.entries()), Ghost((start@, 0u64)), Ghost(None))
    }

    /// Every user key with its entry, as `range_from` gives them from the
    /// smallest key on.
    pub fn iter_entries(&self) -> (r: Vec<(Vec<u8>, Entry)>)
        ensures
            scans(scan_view(r@), self.entries(), Seq::<u8>::empty(), None),
    {
        let empty: Vec<u8> = Vec::new();
        self.range_from(empty.as_slice())
    }

    /// The scan of `range`, last key first.
    pub fn range_rev(&self, start: &[u8], end: &[u8]) -> (r: Vec<(Vec<u8>, Entry)>)
        ensures
            scans(scan_view(r@).reverse(), self.entries(), start@, Some(end@)),
    {
        let fwd = self.range(start, end);
        let r = reversed(fwd);
        proof {
            assert(scan_view(r@).reverse() =~= scan_view(fwd@));
        }
        r
    }

    /// Every version with its internal key, in order: by user key, newest first.
    pub fn iter(&self) -> (r: Vec<(InternalKey, Vec<u8>)>)
        ensures
            lists_range(internal_view(r@), self.entries(), (Seq::<u8>::empty(), 0), None),
    {
        let lo: OrderKey = (Vec::new(), 0);
        let list = skip_map_range_from(&self.data, &lo);
        to_internal(list)
    }

    /// Every version with its internal key, last first.
    pub fn iter_rev(&self) -> (r: Vec<(InternalKey, Vec<u8>)>)
        ensures
            lists_range(internal_view(r@).reverse(), self.entries(), (Seq::<u8>::empty(), 0), None),
    {
        let fwd = self.iter();
        let r = reversed(fwd);
        proof {
            assert(internal_view(r@).reverse() =~= internal_view(fwd@));
        }
        r
    }

    /// The versions from `start` (inclusive, or from the first) to `end`
    /// (exclusive, or to the last), compared by user key and sequence number
    /// (newest first), last first.
    pub fn range_rev_internal(&self, start: Option<&InternalKey>, end: Option<&InternalKey>) -> (r: Vec<(InternalKey, Vec<u8>)>)
        ensures
            lists_range(
                internal_view(r@).reverse(),
                self.entries(),
                match start {
                    Some(k) => (k.user_key@, order_of(k.seq)),
                    None => (Seq::<u8>::empty(), 0),
                },
                match end {
                    Some(k) => Some((k.user_key@, order_of(k.seq))),
                    None => None,
                },
            ),
    {
        let lo: OrderKey = match start {
            Some(k) => (copy_bytes(k.user_key.as_slice()), u64::MAX - k.seq),
            None => (Vec::new(), 0),
        };
        let list = match end {
            Some(k) => {
                let hi: OrderKey = (copy_bytes(k.user_key.as_slice()), u64::MAX - k.seq);
                skip_map_range(&self.data, &lo, &hi)
            },
            None => skip_map_range_from(&self.data, &lo),
        };
        let fwd = to_internal(list);
        let r = reversed(fwd);
        proof {
            assert(internal_view(r@).reverse() =~= internal_view(fwd@));
        }
        r
    }

    /// Write an entry as the newest version of `key` (sequence number
    /// `u64::MAX`): a value or a tombstone as one version, merge operands one
    /// after another under that same version, so that the last one stays.
    pub fn put_entry(&mut self, key: Vec<u8>, entry: Entry)
        requires
            old(self).wf(),
            entry matches Entry::Value(v) ==> key@.len() + v@.len() + 8 <= usize::MAX,
            entry is Tombstone ==> key@.len() + 8 <= usize::MAX,
            entry matches Entry::Merge(ops) ==> forall|i: int| 0 <= i < ops@.len() ==> key@.len() + (
            #[trigger] ops@[i])@.len() + 8 <= usize::MAX,
        ensures
            final(self).wf(),
            final(self).spec_capacity() == old(self).spec_capacity(),
            entry matches Entry::Value(v) ==> final(self).entries() == old(self).entries().insert(
                (key@, 0),
                (ValueType::Value, v@),
            ) && final(self).spec_size() == old(self).spec_size().wrapping_add(
                (key@.len() + v@.len() + 8) as usize,
            ),
            entry is Tombstone ==> final(self).entries() == old(self).entries().insert(
                (key@, 0),
                (ValueType::Deletion, Seq::<u8>::empty()),
            ) && final(self).spec_size() == old(self).spec_size().wrapping_add((key@.len() + 8) as usize),
            entry matches Entry::Merge(ops) ==> final(self).entries() == (if ops@.len() == 0 {
                old(self).entries()
            } else {
                old(self).entries().insert((key@, 0), (ValueType::Merge, ops@.last()@))
            }) && final(self).spec_size() == size_after_ops(old(self).spec_size(), key@.len(), ops_view(ops@)),
    {
        let seq = u64::MAX;
        match entry {
            Entry::Value(v) => self.put(key, v, seq),
            Entry::Tombstone => self.delete(key, seq),
            Entry::Merge(ops) => {
                let ghost e0 = self.entries();
                let ghost s0 = self.spec_size();
                let ghost ov = ops_view(ops@);
                for op in it: ops
                    invariant
                        seq == u64::MAX,
                        self.wf(),
                        self.spec_capacity() == old(self).spec_capacity(),
                        e0 == old(self).entries(),
                        s0 == old(self).spec_size(),
                        ov == ops_view(it.seq()),
                        forall|i: int| 0 <= i < it.seq().len() ==> key@.len() + (#[trigger] it.seq()[i])@.len() + 8
                            <= usize::MAX,
                        self.entries() == (if it.index() == 0 {
                            e0
                        } else {
                            e0.insert((key@, 0), (ValueType::Merge, ov[it.index() - 1]))
                        }),
                        self.spec_size() == size_after_ops(s0, key@.len(), ov.take(it.index() as int)),
                {
                    proof {
                        assert(it.seq()[it.index() as int] == op);
                        assert(ov[it.index() as int] == op@);
                        assert(order_of(seq) == 0);
                        assert(ov.take(it.index() + 1).drop_last() =~= ov.take(it.index() as int));
                        assert(ov.take(it.index() + 1).last() == op@);
                    }
                    let k = copy_bytes(key.as_slice());
                    self.merge(k, op, seq);
                    proof {
                        if it.index() > 0 {
                            assert(e0.insert((key@, 0), (ValueType::Merge, ov[it.index() - 1])).insert(
                                (key@, 0),
                                (ValueType::Merge, op@),
                            ) =~= e0.insert((key@, 0), (ValueType::Merge, op@)));
                        }
                    }
                }
                proof {
                    assert(ov.take(ov.len() as int) =~= ov);
                    if ov.len() > 0 {
                        assert(ov[ov.len() - 1] == ops@.last()@);
                    }
                }
            },
        }
    }

    /// What the memtable holds for `key` over all its versions, newest
    /// first: the first value or deletion decides (merge operands are passed
    /// over); `Absent` if there is neither.
    pub fn lookup(&self, key: &[u8]) -> (r: TableLookup)
        ensures
            lookup_view(r) == memtable_read(self.entries(), key@),
    {
        let lo: OrderKey = (copy_bytes(key), 0);
        let list = skip_map_range_from(&self.data, &lo);
        let ghost pv = pairs_view(list@);
        proof {
            lemma_run_lists_versions(pv, self.entries(), key@, 0, None);
            lemma_lead(pv, key@);
        }
        let ghost l = lead(pv, key@);
        let ghost vs = strip(pv.take(l as int));
        proof {
            assert(lists_versions(vs, self.entries(), key@, 0));
            let c = choose|c: Seq<(u64, (ValueType, Seq<u8>))>| lists_versions(c, self.entries(), key@, 0);
            lemma_listing_unique(vs, c, self.entries(), key@, 0);
            assert(memtable_read(self.entries(), key@) == lookup_versions(vs));
            assert(vs.skip(0) =~= vs);
        }
        let mut i: usize = 0;
        while i < list.len()
            invariant
                pv == pairs_view(list@),
                i <= l,
                l <= pv.len(),
                vs == strip(pv.take(l as int)),
                memtable_read(self.entries(), key@) == lookup_versions(vs.skip(i as int)),
                forall|t: int| 0 <= t < l ==> (#[trigger] pv[t]).0.0 == key@,
                l < pv.len() ==> pv[l as int].0.0 != key@,
            decreases list.len() - i,
        {
            assert(pv[i as int].0.0 == list@[i as int].0.0@);
            if !bytes_eq(list[i].0.0.as_slice(), key) {
                proof {
                    assert(i == l);
                    assert(vs.skip(i as int) =~= Seq::<(u64, (ValueType, Seq<u8>))>::empty());
                }
                return TableLookup::Absent;
            }
            let kind = list[i].1.0;
            proof {
                assert(vs.skip(i as int)[0] == vs[i as int]);
                assert(vs[i as int] == (list@[i as int].0.1, (kind, list@[i as int].1.1@)));
                assert(vs.skip(i as int).skip(1) =~= vs.skip(i + 1));
            }
            match kind {
                ValueType::Value => {
                    return TableLookup::Value(copy_bytes(list[i].1.1.as_slice()));
                },
                ValueType::Deletion => {
                    return TableLookup::Tombstone;
                },
                _ => {},
            }
            i = i + 1;
        }
        proof {
            assert(vs.skip(i as int) =~= Seq::<(u64, (ValueType, Seq<u8>))>::empty());
        }
        TableLookup::Absent
    }

    /// Whether exactly this versioned key is held (of any visibility).
    pub fn contains_raw(&self, key: &InternalKey) -> (r: bool)
        ensures
            r == (self.entries().contains_key((key.user_key@, order_of(key.seq)))
                && self.entries()[(key.user_key@, order_of(key.seq))].0 == key.kind),
    {
        let k = (copy_range(key.user_key.as_slice(), 0, key.user_key.len()), u64::MAX - key.seq);
        proof {
            assert(key.user_key@.subrange(0, key.user_key@.len() as int) =~= key.user_key@);
        }
        match skip_map_get(&self.data, &k) {
            Some(s) => s.0 == key.kind,
            None => false,
        }
    }

    /// Approximate size in bytes.
    pub fn size(&self) -> (r: usize)
        ensures
            r == self.spec_size(),
    {
        self.size
    }

    /// Whether the memtable has reached its capacity and should be flushed.
    pub fn should_flush(&self) -> (r: bool)
        ensures
            r == (self.spec_size() >= self.spec_capacity()),
    {
        self.size >= self.capacity
    }

    /// Number of versions held.
    pub fn len(&self) -> (r: usize)
        requires
            self.wf(),
        ensures
            r == self.entries().dom().len(),
    {
        skip_map_len(&self.data)
    }

    /// Whether no version is held.
    pub fn is_empty(&self) -> (r: bool)
        requires
            self.wf(),
        ensures
            r == (self.entries().dom().len() == 0),
    {
        skip_map_len(&self.data) == 0
    }
}

} // verus!
