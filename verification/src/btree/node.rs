//! B-tree nodes: sorted entries of a leaf (keys with values) or of an
//! internal node (separator keys with child page ids).
//!
//! A node holds at most `NODE_CAPACITY` entries. In an internal node the
//! child stored with separator `i` holds the keys from that separator up to
//! the next one; `leftmost_child` holds the keys below the first separator.

use vstd::prelude::*;
use crate::btree::order::{lex_lt, bytes_lt, bytes_eq, lemma_lex_irreflexive, lemma_lex_transitive, lemma_lex_total};
use crate::codec::copy_range;

verus! {

/// Size of a page in bytes.
pub const PAGE_SIZE: usize = 4096;

/// Serialized size of a blob pointer (file id, offset, length).
pub const BLOB_POINTER_SIZE: usize = 16;

/// Maximum number of entries in a node.
pub const NODE_CAPACITY: usize = 32;

/// Location of a value stored in a blob file.
#[derive(Debug, Clone, Copy, PartialEq, Eq)]
pub struct BlobPointer {
    /// Blob file holding the value.
    pub file_id: u32,
    /// Byte offset of the value's record in the file.
    pub offset: u64,
    /// Length of the value in bytes.
    pub length: u32,
}

/// Kind of node.
#[derive(Debug, Clone, Copy, PartialEq, Eq, Structural)]
pub enum PageType {
    /// Leaf node: keys with values.
    Leaf,
    /// Internal node: separator keys with children.
    Internal,
}

/// Kind of value stored in a leaf entry.
#[derive(Debug, Clone, Copy, PartialEq, Eq, Structural)]
pub enum ValueType {
    /// The value itself.
    Inline,
    /// A pointer to a value in a blob file.
    Blob,
    /// A deletion marker.
    Tombstone,
}

/// What an entry stores.
#[derive(Debug, Clone)]
pub enum Slot {
    /// An inline value (leaf).
    Inline(Vec<u8>),
    /// A blob pointer (leaf).
    Blob(BlobPointer),
    /// A deletion marker (leaf).
    Tombstone,
    /// A child page id (internal node).
    Child(u64),
}

/// Abstract view of a slot.
pub enum SlotView {
    /// An inline value.
    Inline(Seq<u8>),
    /// A blob pointer.
    Blob(BlobPointer),
    /// A deletion marker.
    Tombstone,
    /// A child page id.
    Child(u64),
}

/// The abstract view of a slot.
pub open spec fn slot_view(s: Slot) -> SlotView {
    match s {
        Slot::Inline(v) => SlotView::Inline(v@),
        Slot::Blob(p) => SlotView::Blob(p),
        Slot::Tombstone => SlotView::Tombstone,
        Slot::Child(c) => SlotView::Child(c),
    }
}

/// A borrowed view of a leaf value.
#[derive(Debug)]
pub enum ValueRef<'a> {
    /// Inline value bytes.
    Inline(&'a [u8]),
    /// A blob pointer.
    Blob(BlobPointer),
    /// A deletion marker.
    Tombstone,
}

/// Error from inserting into a node.
#[derive(Debug, Clone, PartialEq, Eq)]
pub enum InsertError {
    /// The node holds `NODE_CAPACITY` entries already.
    PageFull,
    /// The key is already present.
    DuplicateKey(Vec<u8>),
    /// The operation does not apply to this kind of node.
    WrongNodeType,
}

/// Error from splitting a node.
#[derive(Debug, Clone, Copy, PartialEq, Eq)]
pub enum SplitError {
    /// The node has fewer than two entries.
    TooFewEntries,
}

/// Abstract state of a node.
pub struct NodeView {
    /// Leaf or internal.
    pub page_type: PageType,
    /// Height above the leaves (0 for a leaf).
    pub level: u32,
    /// Keys in increasing order.
    pub keys: Seq<Seq<u8>>,
    /// Slot of each key.
    pub slots: Seq<SlotView>,
    /// Child below the first separator (internal nodes).
    pub leftmost_child: u64,
    /// Parent page id, as last recorded.
    pub parent_id: u32,
}

/// Whether the keys strictly increase.
pub open spec fn sorted(keys: Seq<Seq<u8>>) -> bool {
    forall|i: int, j: int| 0 <= i < j < keys.len() ==> lex_lt(#[trigger] keys[i], #[trigger] keys[j])
}

/// Whether a slot is a child pointer.
pub open spec fn is_child(s: SlotView) -> bool {
    s is Child
}

/// Whether a node view is well-formed: as many slots as keys, at most
/// `NODE_CAPACITY` of them, keys sorted, leaves at level 0 holding values,
/// internal nodes above level 0 holding children.
pub open spec fn node_wf(n: NodeView) -> bool {
    &&& n.keys.len() == n.slots.len()
    &&& n.keys.len() <= NODE_CAPACITY
    &&& sorted(n.keys)
    &&& n.page_type == PageType::Leaf ==> n.level == 0 && forall|i: int| 0 <= i < n.slots.len() ==> !is_child(#[trigger] n.slots[i])
    &&& n.page_type == PageType::Internal ==> n.level > 0 && forall|i: int| 0 <= i < n.slots.len() ==> is_child(#[trigger] n.slots[i])
}

/// Index of `key` among the keys, if present.
pub open spec fn key_index(keys: Seq<Seq<u8>>, key: Seq<u8>) -> Option<int> {
    if exists|i: int| 0 <= i < keys.len() && keys[i] == key {
        Some(choose|i: int| 0 <= i < keys.len() && keys[i] == key)
    } else {
        None
    }
}

/// Number of leading keys that do not exceed `key` (the insertion point).
pub open spec fn rank(keys: Seq<Seq<u8>>, key: Seq<u8>) -> int
    decreases keys.len(),
{
    if keys.len() == 0 {
        0
    } else if lex_lt(key, keys[0]) {
        0
    } else {
        1 + rank(keys.skip(1), key)
    }
}

/// The child an internal node routes `key` to: the child of the last
/// separator not above `key`, or the leftmost child.
pub open spec fn route_child(n: NodeView, key: Seq<u8>) -> u64 {
    let r = rank(n.keys, key);
    if r == 0 {
        n.leftmost_child
    } else {
        n.slots[r - 1]->Child_0
    }
}

/// Lemma: in sorted keys, the rank of `key` is the number of keys not above it.
pub proof fn lemma_rank_sorted(keys: Seq<Seq<u8>>, key: Seq<u8>)
    requires
        sorted(keys),
    ensures
        0 <= rank(keys, key) <= keys.len(),
        forall|j: int| 0 <= j < rank(keys, key) ==> !lex_lt(key, #[trigger] keys[j]),
        forall|j: int| rank(keys, key) <= j < keys.len() ==> lex_lt(key, #[trigger] keys[j]),
    decreases keys.len(),
{
    if keys.len() > 0 {
        let t = keys.skip(1);
        assert(sorted(t)) by {
            assert forall|i: int, j: int| 0 <= i < j < t.len() implies lex_lt(#[trigger] t[i], #[trigger] t[j]) by {
                assert(t[i] == keys[i + 1] && t[j] == keys[j + 1]);
            }
        }
        lemma_rank_sorted(t, key);
        if lex_lt(key, keys[0]) {
            assert forall|j: int| 0 <= j < keys.len() implies lex_lt(key, #[trigger] keys[j]) by {
                if j > 0 {
                    lemma_lex_transitive(key, keys[0], keys[j]);
                }
            }
        } else {
            assert forall|j: int| 1 <= j < rank(keys, key) implies !lex_lt(key, #[trigger] keys[j]) by {
                assert(keys[j] == t[j - 1]);
            }
            assert forall|j: int| rank(keys, key) <= j < keys.len() implies lex_lt(key, #[trigger] keys[j]) by {
                assert(keys[j] == t[j - 1]);
            }
        }
    }
}

/// Lemma: the rank is determined by the split of keys around `key`.
pub proof fn lemma_rank_unique(keys: Seq<Seq<u8>>, key: Seq<u8>, r: int)
    requires
        sorted(keys),
        0 <= r <= keys.len(),
        forall|j: int| 0 <= j < r ==> !lex_lt(key, #[trigger] keys[j]),
        forall|j: int| r <= j < keys.len() ==> lex_lt(key, #[trigger] keys[j]),
    ensures
        rank(keys, key) == r,
{
    lemma_rank_sorted(keys, key);
    let q = rank(keys, key);
    if q < r {
        assert(lex_lt(key, keys[q]));
    } else if r < q {
        assert(lex_lt(key, keys[r]));
    }
}

/// A B-tree node.
#[derive(Debug)]
pub struct Node {
    page_type: PageType,
    level: u32,
    keys: Vec<Vec<u8>>,
    slots: Vec<Slot>,
    leftmost_child: u64,
    parent_id: u32,
}

impl View for Node {
    type V = NodeView;

    closed spec fn view(&self) -> NodeView {
        NodeView {
            page_type: self.page_type,
            level: self.level,
            keys: self.keys@.map_values(|k: Vec<u8>| k@),
            slots: self.slots@.map_values(|s: Slot| slot_view(s)),
            leftmost_child: self.leftmost_child,
            parent_id: self.parent_id,
        }
    }
}

/// Copies a slot.
fn clone_slot(s: &Slot) -> (r: Slot)
    ensures
        slot_view(r) == slot_view(*s),
{
    match s {
        Slot::Inline(v) => {
            let c = copy_range(v.as_slice(), 0, v.len());
            proof {
                assert(c@ =~= v@);
            }
            Slot::Inline(c)
        },
        Slot::Blob(p) => Slot::Blob(*p),
        Slot::Tombstone => Slot::Tombstone,
        Slot::Child(c) => Slot::Child(*c),
    }
}

impl Node {
    /// Well-formedness of the node.
    pub open spec fn wf(&self) -> bool {
        node_wf(self@)
    }

    /// Create an empty leaf.
    pub fn new_leaf() -> (r: Self)
        ensures
            r.wf(),
            r@.page_type == PageType::Leaf,
            r@.level == 0,
            r@.keys.len() == 0,
            r@.leftmost_child == 0,
            r@.parent_id == 0,
    {
        let r = Self { page_type: PageType::Leaf, level: 0, keys: Vec::new(), slots: Vec::new(), leftmost_child: 0, parent_id: 0 };
        proof {
            assert(r@.keys =~= Seq::<Seq<u8>>::empty());
            assert(r@.slots =~= Seq::<SlotView>::empty());
        }
        r
    }

    /// Create an empty internal node at level `level` (at least 1).
    pub fn new_internal(level: u32) -> (r: Self)
        requires
            level > 0,
        ensures
            r.wf(),
            r@.page_type == PageType::Internal,
            r@.level == level,
            r@.keys.len() == 0,
            r@.leftmost_child == 0,
            r@.parent_id == 0,
    {
        let r = Self { page_type: PageType::Internal, level, keys: Vec::new(), slots: Vec::new(), leftmost_child: 0, parent_id: 0 };
        proof {
            assert(r@.keys =~= Seq::<Seq<u8>>::empty());
            assert(r@.slots =~= Seq::<SlotView>::empty());
        }
        r
    }

    /// Whether this is a leaf.
    pub fn is_leaf(&self) -> (r: bool)
        ensures
            r == (self@.page_type == PageType::Leaf),
    {
        self.page_type == PageType::Leaf
    }

    /// Height above the leaves.
    pub fn level(&self) -> (r: u32)
        ensures
            r == self@.level,
    {
        self.level
    }

    /// Number of entries.
    pub fn count(&self) -> (r: usize)
        ensures
            r == self@.keys.len(),
    {
        self.keys.len()
    }

    /// Copy of key `i`, if it exists.
    pub fn key(&self, i: usize) -> (r: Option<Vec<u8>>)
        ensures
            match r {
                Some(k) => i < self@.keys.len() && k@ == self@.keys[i as int],
                None => i >= self@.keys.len(),
            },
    {
        if i < self.keys.len() {
            Some(copy_range(self.keys[i].as_slice(), 0, self.keys[i].len()))
        } else {
            None
        }
    }

    /// Borrow key `i`.
    pub fn key_ref(&self, i: usize) -> (r: &[u8])
        requires
            i < self@.keys.len(),
        ensures
            r@ == self@.keys[i as int],
    {
        self.keys[i].as_slice()
    }

    /// Value of leaf entry `i`, if it exists (internal entries have none).
    pub fn value(&self, i: usize) -> (r: Option<ValueRef<'_>>)
        ensures
            match r {
                Some(ValueRef::Inline(v)) => i < self@.slots.len() && self@.slots[i as int] == SlotView::Inline(v@),
                Some(ValueRef::Blob(p)) => i < self@.slots.len() && self@.slots[i as int] == SlotView::Blob(p),
                Some(ValueRef::Tombstone) => i < self@.slots.len() && self@.slots[i as int] == SlotView::Tombstone,
                None => i >= self@.slots.len() || self@.slots[i as int] is Child,
            },
    {
        if i >= self.slots.len() {
            return None;
        }
        match &self.slots[i] {
            Slot::Inline(v) => Some(ValueRef::Inline(v.as_slice())),
            Slot::Blob(p) => Some(ValueRef::Blob(*p)),
            Slot::Tombstone => Some(ValueRef::Tombstone),
            Slot::Child(_) => None,
        }
    }

    /// Child below the first separator.
    pub fn leftmost_child(&self) -> (r: u64)
        ensures
            r == self@.leftmost_child,
    {
        self.leftmost_child
    }

    /// Child stored with separator `i`, if it exists.
    pub fn child_id(&self, i: usize) -> (r: Option<u64>)
        ensures
            match r {
                Some(c) => i < self@.slots.len() && self@.slots[i as int] == SlotView::Child(c),
                None => i >= self@.slots.len() || !(self@.slots[i as int] is Child),
            },
    {
        if i >= self.slots.len() {
            return None;
        }
        match &self.slots[i] {
            Slot::Child(c) => Some(*c),
            _ => None,
        }
    }

    /// Set the leftmost child.
    pub fn set_leftmost_child(&mut self, child: u64)
        ensures
            final(self)@ == (NodeView { leftmost_child: child, ..old(self)@ }),
    {
        self.leftmost_child = child;
    }

    /// Record the parent page id.
    pub fn set_parent_id(&mut self, parent: u32)
        ensures
            final(self)@ == (NodeView { parent_id: parent, ..old(self)@ }),
    {
        self.parent_id = parent;
    }

    /// The recorded parent page id.
    pub fn parent_id(&self) -> (r: u32)
        ensures
            r == self@.parent_id,
    {
        self.parent_id
    }

    /// Binary search for `key`: `Ok(i)` if key `i` equals it, otherwise
    /// `Err(i)` with `i` the position where it would be inserted.
    pub fn search(&self, key: &[u8]) -> (r: Result<usize, usize>)
        requires
            self.wf(),
        ensures
            match r {
                Ok(i) => i < self@.keys.len() && self@.keys[i as int] == key@ && key_index(self@.keys, key@) == Some(i as int),
                Err(i) => {
                    &&& i <= self@.keys.len()
                    &&& key_index(self@.keys, key@) is None
                    &&& forall|j: int| 0 <= j < i ==> lex_lt(#[trigger] self@.keys[j], key@)
                    &&& forall|j: int| i <= j < self@.keys.len() ==> lex_lt(key@, #[trigger] self@.keys[j])
                },
            },
    {
        let ghost keys = self@.keys;
        let mut lo: usize = 0;
        let mut hi: usize = self.keys.len();
        while lo < hi
            invariant
                self.wf(),
                keys == self@.keys,
                lo <= hi <= keys.len(),
                forall|j: int| 0 <= j < lo ==> lex_lt(#[trigger] keys[j], key@),
                forall|j: int| hi <= j < keys.len() ==> lex_lt(key@, #[trigger] keys[j]),
            decreases hi - lo,
        {
            let mid = lo + (hi - lo) / 2;
            let k = self.keys[mid].as_slice();
            proof {
                assert(k@ == keys[mid as int]);
            }
            if bytes_eq(k, key) {
                proof {
                    assert forall|j: int| 0 <= j < keys.len() && keys[j] == key@ implies j == mid by {
                        if j < mid {
                            assert(lex_lt(keys[j], keys[mid as int]));
                            lemma_lex_irreflexive(key@);
                        } else if j > mid {
                            assert(lex_lt(keys[mid as int], keys[j]));
                            lemma_lex_irreflexive(key@);
                        }
                    }
                }
                return Ok(mid);
            }
            if bytes_lt(k, key) {
                proof {
                    assert forall|j: int| 0 <= j < mid + 1 implies lex_lt(#[trigger] keys[j], key@) by {
                        if j < mid {
                            lemma_lex_transitive(keys[j], keys[mid as int], key@);
                        }
                    }
                }
                lo = mid + 1;
            } else {
                proof {
                    lemma_lex_total(k@, key@);
                    assert forall|j: int| mid <= j < keys.len() implies lex_lt(key@, #[trigger] keys[j]) by {
                        if j > mid {
                            lemma_lex_transitive(key@, keys[mid as int], keys[j]);
                        }
                    }
                }
                hi = mid;
            }
        }
        proof {
            assert forall|j: int| 0 <= j < keys.len() implies keys[j] != key@ by {
                lemma_lex_irreflexive(key@);
            }
        }
        Err(lo)
    }

    /// Insert key and slot at position `pos`, keeping the keys sorted.
    fn insert_at(&mut self, pos: usize, key: &[u8], slot: Slot)
        requires
            old(self).wf(),
            old(self)@.keys.len() < NODE_CAPACITY,
            pos <= old(self)@.keys.len(),
            forall|j: int| 0 <= j < pos ==> lex_lt(#[trigger] old(self)@.keys[j], key@),
            forall|j: int| pos <= j < old(self)@.keys.len() ==> lex_lt(key@, #[trigger] old(self)@.keys[j]),
            old(self)@.page_type == PageType::Leaf ==> !is_child(slot_view(slot)),
            old(self)@.page_type == PageType::Internal ==> is_child(slot_view(slot)),
        ensures
            final(self).wf(),
            final(self)@ == (NodeView {
                keys: old(self)@.keys.insert(pos as int, key@),
                slots: old(self)@.slots.insert(pos as int, slot_view(slot)),
                ..old(self)@
            }),
    {
        let ghost old_keys = self@.keys;
        let ghost old_slots = self@.slots;
        let k = copy_range(key, 0, key.len());
        proof {
            assert(k@ =~= key@);
        }
        self.keys.insert(pos, k);
        self.slots.insert(pos, slot);
        proof {
            assert(self@.keys =~= old_keys.insert(pos as int, key@));
            assert(self@.slots =~= old_slots.insert(pos as int, slot_view(slot)));
            let nk = self@.keys;
            assert forall|i: int, j: int| 0 <= i < j < nk.len() implies lex_lt(#[trigger] nk[i], #[trigger] nk[j]) by {
                if j < pos {
                } else if j == pos {
                } else if i < pos {
                    lemma_lex_transitive(nk[i], key@, nk[j]);
                } else if i == pos {
                } else {
                }
            }
        }
    }

    /// Insert a key with an inline value into a leaf.
    ///
    /// Fails with `WrongNodeType` on an internal node, `DuplicateKey` if the
    /// key is present (as a value or a tombstone), and `PageFull` if the
    /// node is full.
    pub fn insert(&mut self, key: &[u8], value: &[u8]) -> (r: Result<(), InsertError>)
        requires
            old(self).wf(),
        ensures
            final(self).wf(),
            match r {
                Ok(()) => {
                    &&& old(self)@.page_type == PageType::Leaf
                    &&& key_index(old(self)@.keys, key@) is None
                    &&& old(self)@.keys.len() < NODE_CAPACITY
                    &&& final(self)@ == (NodeView {
                        keys: old(self)@.keys.insert(rank(old(self)@.keys, key@), key@),
                        slots: old(self)@.slots.insert(rank(old(self)@.keys, key@), SlotView::Inline(value@)),
                        ..old(self)@
                    })
                },
                Err(InsertError::WrongNodeType) => old(self)@.page_type == PageType::Internal && final(self)@ == old(self)@,
                Err(InsertError::DuplicateKey(k)) => {
                    &&& old(self)@.page_type == PageType::Leaf
                    &&& key_index(old(self)@.keys, key@) is Some
                    &&& k@ == key@
                    &&& final(self)@ == old(self)@
                },
                Err(InsertError::PageFull) => {
                    &&& old(self)@.page_type == PageType::Leaf
                    &&& key_index(old(self)@.keys, key@) is None
                    &&& old(self)@.keys.len() == NODE_CAPACITY
                    &&& final(self)@ == old(self)@
                },
            },
    {
        if !self.is_leaf() {
            return Err(InsertError::WrongNodeType);
        }
        match self.search(key) {
            Ok(_) => Err(InsertError::DuplicateKey(copy_range(key, 0, key.len()))),
            Err(pos) => {
                if self.keys.len() >= NODE_CAPACITY {
                    return Err(InsertError::PageFull);
                }
                proof {
                    assert forall|j: int| 0 <= j < pos implies !lex_lt(key@, #[trigger] self@.keys[j]) by {
                        lemma_lex_total(self@.keys[j], key@);
                    }
                    lemma_rank_unique(self@.keys, key@, pos as int);
                }
                let v = copy_range(value, 0, value.len());
                proof {
                    assert(v@ =~= value@);
                }
                self.insert_at(pos, key, Slot::Inline(v));
                Ok(())
            },
        }
    }

    /// Mark `key` deleted in a leaf: an existing entry's value becomes a
    /// tombstone, a missing key is inserted as a tombstone.
    ///
    /// Fails with `WrongNodeType` on an internal node and `PageFull` if the
    /// key is missing from a full node.
    pub fn insert_tombstone(&mut self, key: &[u8]) -> (r: Result<(), InsertError>)
        requires
            old(self).wf(),
        ensures
            final(self).wf(),
            match r {
                Ok(()) => {
                    &&& old(self)@.page_type == PageType::Leaf
                    &&& match key_index(old(self)@.keys, key@) {
                        Some(i) => final(self)@ == (NodeView {
                            slots: old(self)@.slots.update(i, SlotView::Tombstone),
                            ..old(self)@
                        }),
                        None => final(self)@ == (NodeView {
                            keys: old(self)@.keys.insert(rank(old(self)@.keys, key@), key@),
                            slots: old(self)@.slots.insert(rank(old(self)@.keys, key@), SlotView::Tombstone),
                            ..old(self)@
                        }),
                    }
                },
                Err(InsertError::WrongNodeType) => old(self)@.page_type == PageType::Internal && final(self)@ == old(self)@,
                Err(InsertError::PageFull) => {
                    &&& old(self)@.page_type == PageType::Leaf
                    &&& key_index(old(self)@.keys, key@) is None
                    &&& old(self)@.keys.len() == NODE_CAPACITY
                    &&& final(self)@ == old(self)@
                },
                Err(InsertError::DuplicateKey(_)) => false,
            },
    {
        if !self.is_leaf() {
            return Err(InsertError::WrongNodeType);
        }
        match self.search(key) {
            Ok(i) => {
                let ghost old_slots = self@.slots;
                self.slots.set(i, Slot::Tombstone);
                proof {
                    assert(self@.slots =~= old_slots.update(i as int, SlotView::Tombstone));
                }
                Ok(())
            },
            Err(pos) => {
                if self.keys.len() >= NODE_CAPACITY {
                    return Err(InsertError::PageFull);
                }
                proof {
                    assert forall|j: int| 0 <= j < pos implies !lex_lt(key@, #[trigger] self@.keys[j]) by {
                        lemma_lex_total(self@.keys[j], key@);
                    }
                    lemma_rank_unique(self@.keys, key@, pos as int);
                }
                self.insert_at(pos, key, Slot::Tombstone);
                Ok(())
            },
        }
    }

    /// Insert a separator key with the child to its right into an internal node.
    ///
    /// Fails with `WrongNodeType` on a leaf, `DuplicateKey` if the separator
    /// is present, and `PageFull` if the node is full.
    pub fn insert_child(&mut self, key: &[u8], child: u64) -> (r: Result<(), InsertError>)
        requires
            old(self).wf(),
        ensures
            final(self).wf(),
            match r {
                Ok(()) => {
                    &&& old(self)@.page_type == PageType::Internal
                    &&& key_index(old(self)@.keys, key@) is None
                    &&& old(self)@.keys.len() < NODE_CAPACITY
                    &&& final(self)@ == (NodeView {
                        keys: old(self)@.keys.insert(rank(old(self)@.keys, key@), key@),
                        slots: old(self)@.slots.insert(rank(old(self)@.keys, key@), SlotView::Child(child)),
                        ..old(self)@
                    })
                },
                Err(InsertError::WrongNodeType) => old(self)@.page_type == PageType::Leaf && final(self)@ == old(self)@,
                Err(InsertError::DuplicateKey(k)) => {
                    &&& old(self)@.page_type == PageType::Internal
                    &&& key_index(old(self)@.keys, key@) is Some
                    &&& k@ == key@
                    &&& final(self)@ == old(self)@
                },
                Err(InsertError::PageFull) => {
                    &&& old(self)@.page_type == PageType::Internal
                    &&& key_index(old(self)@.keys, key@) is None
                    &&& old(self)@.keys.len() == NODE_CAPACITY
                    &&& final(self)@ == old(self)@
                },
            },
    {
        if self.is_leaf() {
            return Err(InsertError::WrongNodeType);
        }
        match self.search(key) {
            Ok(_) => Err(InsertError::DuplicateKey(copy_range(key, 0, key.len()))),
            Err(pos) => {
                if self.keys.len() >= NODE_CAPACITY {
                    return Err(InsertError::PageFull);
                }
                proof {
                    assert forall|j: int| 0 <= j < pos implies !lex_lt(key@, #[trigger] self@.keys[j]) by {
                        lemma_lex_total(self@.keys[j], key@);
                    }
                    lemma_rank_unique(self@.keys, key@, pos as int);
                }
                self.insert_at(pos, key, Slot::Child(child));
                Ok(())
            },
        }
    }

    /// Split the node in two around its middle entry `m = count / 2`.
    ///
    /// A leaf keeps entries `..m` and the new right leaf gets `m..`; the
    /// median returned is the right leaf's first key. An internal node keeps
    /// separators `..m`, the median separator `m` moves up (returned), and the
    /// new right node gets its child as leftmost child and separators `m+1..`.
    pub fn split(&mut self) -> (r: Result<(Vec<u8>, Node), SplitError>)
        requires
            old(self).wf(),
        ensures
            final(self).wf(),
            match r {
                Ok((median, right)) => {
                    let m = old(self)@.keys.len() / 2;
                    &&& old(self)@.keys.len() >= 2
                    &&& right.wf()
                    &&& median@ == old(self)@.keys[m as int]
                    &&& final(self)@ == (NodeView {
                        keys: old(self)@.keys.subrange(0, m as int),
                        slots: old(self)@.slots.subrange(0, m as int),
                        ..old(self)@
                    })
                    &&& right@.page_type == old(self)@.page_type
                    &&& right@.level == old(self)@.level
                    &&& right@.parent_id == old(self)@.parent_id
                    &&& if old(self)@.page_type == PageType::Leaf {
                        &&& right@.keys == old(self)@.keys.subrange(m as int, old(self)@.keys.len() as int)
                        &&& right@.slots == old(self)@.slots.subrange(m as int, old(self)@.keys.len() as int)
                        &&& right@.leftmost_child == 0
                    } else {
                        &&& right@.keys == old(self)@.keys.subrange(m as int + 1, old(self)@.keys.len() as int)
                        &&& right@.slots == old(self)@.slots.subrange(m as int + 1, old(self)@.keys.len() as int)
                        &&& right@.leftmost_child == old(self)@.slots[m as int]->Child_0
                    }
                },
                Err(SplitError::TooFewEntries) => old(self)@.keys.len() < 2 && final(self)@ == old(self)@,
            },
    {
        let n = self.keys.len();
        if n < 2 {
            return Err(SplitError::TooFewEntries);
        }
        let ghost old_view = self@;
        let m = n / 2;
        let median = copy_range(self.keys[m].as_slice(), 0, self.keys[m].len());
        let start = if self.page_type == PageType::Leaf {
            m
        } else {
            m + 1
        };
        let leftmost = if self.page_type == PageType::Leaf {
            0
        } else {
            match &self.slots[m] {
                Slot::Child(c) => *c,
                _ => 0,
            }
        };
        let mut right_keys: Vec<Vec<u8>> = Vec::new();
        let mut right_slots: Vec<Slot> = Vec::new();
        let mut i: usize = start;
        while i < n
            invariant
                n == self@.keys.len(),
                self.wf(),
                self.slots@.len() == n,
                self@ == old_view,
                start <= i <= n,
                right_keys@.len() == i - start,
                right_slots@.len() == i - start,
                forall|j: int| 0 <= j < i - start ==> (#[trigger] right_keys@[j])@ == old_view.keys[start + j],
                forall|j: int| 0 <= j < i - start ==> slot_view(#[trigger] right_slots@[j]) == old_view.slots[start + j],
            decreases n - i,
        {
            right_keys.push(copy_range(self.keys[i].as_slice(), 0, self.keys[i].len()));
            proof {
                assert(self@.slots[i as int] == slot_view(self.slots@[i as int]));
            }
            right_slots.push(clone_slot(&self.slots[i]));
            i = i + 1;
        }
        self.keys.truncate(m);
        self.slots.truncate(m);
        let right = Node {
            page_type: self.page_type,
            level: self.level,
            keys: right_keys,
            slots: right_slots,
            leftmost_child: leftmost,
            parent_id: self.parent_id,
        };
        proof {
            assert(self@.keys =~= old_view.keys.subrange(0, m as int));
            assert(self@.slots =~= old_view.slots.subrange(0, m as int));
            assert(right@.keys =~= old_view.keys.subrange(start as int, n as int));
            assert(right@.slots =~= old_view.slots.subrange(start as int, n as int));
            assert forall|i: int, j: int| 0 <= i < j < right@.keys.len() implies lex_lt(#[trigger] right@.keys[i], #[trigger] right@.keys[j]) by {
                assert(right@.keys[i] == old_view.keys[start + i]);
                assert(right@.keys[j] == old_view.keys[start + j]);
            }
            assert forall|i: int, j: int| 0 <= i < j < self@.keys.len() implies lex_lt(#[trigger] self@.keys[i], #[trigger] self@.keys[j]) by {
                assert(self@.keys[i] == old_view.keys[i]);
                assert(self@.keys[j] == old_view.keys[j]);
            }
            if old_view.page_type == PageType::Internal {
                assert(is_child(old_view.slots[m as int]));
            }
        }
        Ok((median, right))
    }
}

} // verus!
