//! Blob file manager.
//!
//! Manages the blob files used for key-value separation: appending values,
//! reading them back through blob pointers, and tracking garbage.

use vstd::prelude::*;
use crate::blob::file::{
BlobFile, BlobFileView, read_at, total_span, law_read_after_append, law_append_keeps_reads};
use crate::btree::node::BlobPointer;

verus! {

/// Default threshold for blob separation (1KB).
pub const DEFAULT_BLOB_THRESHOLD: usize = 1024;

/// The 8-byte key prefix of `key`: its first 8 bytes, padded with zeros.
pub open spec fn key_prefix_of(key: Seq<u8>) -> Seq<u8> {
    Seq::new(8, |i: int| if i < key.len() { key[i] } else { 0u8 })
}

/// Whether a blob file view is more than half deleted.
pub open spec fn file_needs_gc(f: BlobFileView) -> bool {
    let total = f.valid_count + f.deleted_count;
    total > 0 && f.deleted_count > total / 2
}

/// The ids of the files that need garbage collection, in file order.
pub open spec fn gc_ids(files: Seq<BlobFileView>) -> Seq<u32>
    decreases files.len(),
{
    if files.len() == 0 {
        Seq::empty()
    } else if file_needs_gc(files.last()) {
        gc_ids(files.drop_last()).push(files.last().file_id)
    } else {
        gc_ids(files.drop_last())
    }
}

/// Index of the first file with id `id`.
pub open spec fn file_index(files: Seq<BlobFileView>, id: u32) -> Option<int> {
    if exists|i: int| 0 <= i < files.len() && files[i].file_id == id {
        Some(
            choose|i: int|
                0 <= i < files.len() && files[i].file_id == id && forall|j: int|
                    0 <= j < i ==> files[j].file_id != id,
        )
    } else {
        None
    }
}

/// What reading a blob pointer gives back from the files.
pub open spec fn read_pointer(files: Seq<BlobFileView>, ptr: BlobPointer) -> Option<Seq<u8>> {
    match file_index(files, ptr.file_id) {
        Some(i) => read_at(files[i].records, ptr.offset as int, ptr.length as int),
        None => None,
    }
}

/// Abstract state of a blob manager.
pub struct BlobManagerView {
    /// Blob files in creation order.
    pub files: Seq<BlobFileView>,
    /// Next file ID.
    pub next_file_id: u32,
    /// Threshold for blob separation (in bytes).
    pub threshold: usize,
}

/// Manages blob files for key-value separation.
///
/// Values longer than the threshold are stored in blob files; the B-tree
/// stores blob pointers to them.
pub struct BlobManager {
    files: Vec<BlobFile>,
    next_file_id: u32,
    threshold: usize,
}

impl View for BlobManager {
    type V = BlobManagerView;

    closed spec fn view(&self) -> BlobManagerView {
        BlobManagerView {
            files: self.files@.map_values(|f: BlobFile| f@),
            next_file_id: self.next_file_id,
            threshold: self.threshold,
        }
    }
}

/// Lemma: the first file with id `id` is at index `k` when `k` holds it and no earlier one does.
proof fn lemma_file_index_at(files: Seq<BlobFileView>, id: u32, k: int)
    requires
        0 <= k < files.len(),
        files[k].file_id == id,
        forall|j: int| 0 <= j < k ==> files[j].file_id != id,
    ensures
        file_index(files, id) == Some(k),
{
    let i = choose|i: int|
        0 <= i < files.len() && files[i].file_id == id && forall|j: int|
            0 <= j < i ==> files[j].file_id != id;
    assert(0 <= k < files.len() && files[k].file_id == id && forall|j: int|
        0 <= j < k ==> files[j].file_id != id);
    if i < k {
    } else if k < i {
    }
}

impl BlobManager {
    /// Internal consistency: at most one file (the active one) exists, its id
    /// is 1, the next id follows it, and the file is consistent.
    pub open spec fn inv(&self) -> bool {
        &&& self@.files.len() <= 1
        &&& self@.next_file_id == self@.files.len() + 1
        &&& forall|i: int| 0 <= i < self@.files.len() ==> {
            &&& (#[trigger] self@.files[i]).offset == total_span(self@.files[i].records)
            &&& self@.files[i].valid_count <= self@.files[i].records.len()
            &&& self@.files[i].file_id == i + 1
        }
    }

    /// Create a new blob manager with the default threshold.
    pub fn new() -> (r: Self)
        ensures
            r.inv(),
            r@.files == Seq::<BlobFileView>::empty(),
            r@.threshold == DEFAULT_BLOB_THRESHOLD,
    {
        Self::with_threshold(DEFAULT_BLOB_THRESHOLD)
    }

    /// Create a new blob manager with a custom threshold.
    pub fn with_threshold(threshold: usize) -> (r: Self)
        ensures
            r.inv(),
            r@.files == Seq::<BlobFileView>::empty(),
            r@.next_file_id == 1,
            r@.threshold == threshold,
    {
        let r = Self { files: Vec::new(), next_file_id: 1, threshold };
        proof {
            assert(r@.files =~= Seq::<BlobFileView>::empty());
        }
        r
    }

    /// Get the blob threshold.
    pub fn threshold(&self) -> (r: usize)
        ensures
            r == self@.threshold,
    {
        self.threshold
    }

    /// Number of blob files.
    pub fn file_count(&self) -> (r: usize)
        ensures
            r == self@.files.len(),
    {
        self.files.len()
    }

    /// Whether a value should be stored in a blob file.
    pub fn should_separate(&self, value_len: usize) -> (r: bool)
        ensures
            r == (value_len > self@.threshold),
    {
        value_len > self.threshold
    }

    /// Whether appending a value of `value_len` bytes keeps the active file's
    /// offset within `u64`.
    pub open spec fn can_append(&self, value_len: int) -> bool {
        if self@.files.len() > 0 {
            &&& self@.files.last().offset + 16 + value_len <= u64::MAX
            &&& self@.files.last().records.len() < usize::MAX
        } else {
            16 + value_len <= u64::MAX
        }
    }

    /// Append a value to the active blob file and return a pointer to it.
    ///
    /// The active file is created (with the next file id) when none exists.
    pub fn append(&mut self, key: &[u8], value: Vec<u8>) -> (ptr: BlobPointer)
        requires
            old(self).inv(),
            old(self).can_append(value@.len() as int),
        ensures
            final(self).inv(),
            final(self)@.threshold == old(self)@.threshold,
            final(self)@.files.len() == 1,
            ptr.file_id == 1,
            ptr.length == value@.len() as u32,
            ({
                let before = if old(self)@.files.len() == 0 {
                    Seq::<(Seq<u8>, Seq<u8>)>::empty()
                } else {
                    old(self)@.files[0].records
                };
                &&& final(self)@.files[0].records == before.push((key_prefix_of(key@), value@))
                &&& ptr.offset == total_span(before)
            }),
            value@.len() <= u32::MAX ==> read_pointer(final(self)@.files, ptr) == Some(value@),
            forall|p: BlobPointer|
                p.file_id != ptr.file_id || p.offset != ptr.offset ==> read_pointer(final(self)@.files, p)
                    == read_pointer(old(self)@.files, p),
            old(self)@.files.len() == 1 ==> {
                &&& final(self)@.files[0].valid_count == old(self)@.files[0].valid_count + 1
                &&& final(self)@.files[0].deleted_count == old(self)@.files[0].deleted_count
            },
            old(self)@.files.len() == 0 ==> {
                &&& final(self)@.files[0].valid_count == 1
                &&& final(self)@.files[0].deleted_count == 0
            },
    {
        if self.files.len() == 0 {
            self.create_new_file();
        }
        let key_prefix = Self::make_key_prefix(key);
        let mut file = self.files.pop().unwrap();
        let (offset, length) = file.append(key_prefix, value);
        let file_id = file.file_id();
        self.files.push(file);
        let ptr = BlobPointer { file_id, offset, length };
        proof {
            let before = if old(self)@.files.len() == 0 {
                Seq::<(Seq<u8>, Seq<u8>)>::empty()
            } else {
                old(self)@.files[0].records
            };
            let pair = (key_prefix@, value@);
            assert(self@.files =~= seq![file@]);
            lemma_file_index_at(self@.files, 1, 0);
            if value@.len() <= u32::MAX {
                law_read_after_append(before, pair);
            }
            assert forall|p: BlobPointer|
                p.file_id != ptr.file_id || p.offset != ptr.offset implies read_pointer(self@.files, p)
                    == read_pointer(old(self)@.files, p) by {
                if p.file_id == 1 {
                    law_append_keeps_reads(before, pair, p.offset as int, p.length as int);
                    if old(self)@.files.len() == 1 {
                        lemma_file_index_at(old(self)@.files, 1, 0);
                    } else {
                        assert(read_at(before, p.offset as int, p.length as int) is None);
                    }
                } else {
                    assert(!(exists|i: int| 0 <= i < self@.files.len() && self@.files[i].file_id == p.file_id));
                    assert(!(exists|i: int| 0 <= i < old(self)@.files.len() && old(self)@.files[i].file_id == p.file_id));
                }
            }
        }
        ptr
    }

    /// Read a value from a blob file.
    pub fn read(&self, ptr: &BlobPointer) -> (r: Option<&[u8]>)
        requires
            self.inv(),
        ensures
            match r {
                Some(v) => read_pointer(self@.files, *ptr) == Some(v@),
                None => read_pointer(self@.files, *ptr) is None,
            },
    {
        let n = self.files.len();
        let mut i: usize = 0;
        while i < n
            invariant
                self.inv(),
                n == self@.files.len(),
                i <= n,
                forall|j: int| 0 <= j < i ==> self@.files[j].file_id != ptr.file_id,
            decreases n - i,
        {
            if self.files[i].file_id() == ptr.file_id {
                proof {
                    lemma_file_index_at(self@.files, ptr.file_id, i as int);
                }
                return self.files[i].read(ptr.offset, ptr.length);
            }
            i = i + 1;
        }
        None
    }

    /// Mark an entry as deleted (for GC) in the file the pointer names, if any.
    pub fn mark_deleted(&mut self, ptr: &BlobPointer)
        requires
            old(self).inv(),
            forall|i: int| 0 <= i < old(self)@.files.len() ==> old(self)@.files[i].deleted_count < usize::MAX,
        ensures
            final(self).inv(),
            final(self)@.threshold == old(self)@.threshold,
            final(self)@.files.len() == old(self)@.files.len(),
            forall|i: int|
                0 <= i < final(self)@.files.len() ==> {
                    &&& (#[trigger] final(self)@.files[i]).records == old(self)@.files[i].records
                    &&& final(self)@.files[i].file_id == old(self)@.files[i].file_id
                    &&& if file_index(old(self)@.files, ptr.file_id) == Some(i) {
                        &&& final(self)@.files[i].deleted_count == old(self)@.files[i].deleted_count + 1
                        &&& final(self)@.files[i].valid_count == if old(self)@.files[i].valid_count > 0 {
                            old(self)@.files[i].valid_count - 1
                        } else {
                            0
                        }
                    } else {
                        &&& final(self)@.files[i].deleted_count == old(self)@.files[i].deleted_count
                        &&& final(self)@.files[i].valid_count == old(self)@.files[i].valid_count
                    }
                },
    {
        let ghost old_files = self@.files;
        let n = self.files.len();
        let mut i: usize = 0;
        while i < n
            invariant
                self.inv(),
                self@ == old(self)@,
                old_files == old(self)@.files,
                n == self@.files.len(),
                i <= n,
                forall|j: int| 0 <= j < i ==> self@.files[j].file_id != ptr.file_id,
                forall|j: int| 0 <= j < n ==> self@.files[j].deleted_count < usize::MAX,
            decreases n - i,
        {
            if self.files[i].file_id() == ptr.file_id {
                proof {
                    lemma_file_index_at(self@.files, ptr.file_id, i as int);
                }
                let mut file = self.files.remove(i);
                file.mark_deleted(ptr.offset);
                self.files.insert(i, file);
                proof {
                    assert(self@.files =~= old_files.update(i as int, file@));
                }
                return;
            }
            i = i + 1;
        }
        proof {
            assert(file_index(old_files, ptr.file_id) is None);
        }
    }

    /// Get the ids of the files that need garbage collection, in file order.
    pub fn files_needing_gc(&self) -> (r: Vec<u32>)
        ensures
            r@ == gc_ids(self@.files),
    {
        let ghost files = self@.files;
        let mut r: Vec<u32> = Vec::new();
        let n = self.files.len();
        let mut i: usize = 0;
        proof {
            assert(files.take(0) =~= Seq::<BlobFileView>::empty());
        }
        while i < n
            invariant
                files == self@.files,
                n == files.len(),
                i <= n,
                r@ == gc_ids(files.take(i as int)),
            decreases n - i,
        {
            proof {
                assert(files.take(i + 1).drop_last() =~= files.take(i as int));
                assert(files.take(i + 1).last() == files[i as int]);
            }
            if self.files[i].needs_gc() {
                r.push(self.files[i].file_id());
            }
            i = i + 1;
        }
        proof {
            assert(files.take(n as int) =~= files);
        }
        r
    }

    /// Create a new blob file with the next file id.
    fn create_new_file(&mut self)
        requires
            old(self).inv(),
            old(self)@.files.len() == 0,
        ensures
            final(self).inv(),
            final(self)@.threshold == old(self)@.threshold,
            final(self)@.files.len() == 1,
            final(self)@.files[0].records == Seq::<(Seq<u8>, Seq<u8>)>::empty(),
            final(self)@.files[0].offset == 0,
            final(self)@.files[0].valid_count == 0,
            final(self)@.files[0].deleted_count == 0,
    {
        let file_id = self.next_file_id;
        self.next_file_id = self.next_file_id + 1;
        let f = BlobFile::new(file_id);
        self.files.push(f);
        proof {
            assert(self@.files =~= seq![f@]);
        }
    }

    /// Make a key prefix: the first 8 bytes of the key, padded with zeros if shorter.
    pub fn make_key_prefix(key: &[u8]) -> (r: [u8; 8])
        ensures
            r@ == key_prefix_of(key@),
    {
        let mut prefix: [u8; 8] = [0u8; 8];
        let len = if key.len() < 8 {
            key.len()
        } else {
            8
        };
        let mut i: usize = 0;
        while i < len
            invariant
                len <= 8,
                len <= key@.len(),
                len == key@.len() || len == 8,
                i <= len,
                forall|j: int| 0 <= j < i ==> prefix@[j] == key@[j],
                forall|j: int| i <= j < 8 ==> prefix@[j] == 0u8,
            decreases len - i,
        {
            prefix[i] = key[i];
            i = i + 1;
        }
        proof {
            assert(prefix@ =~= key_prefix_of(key@));
        }
        prefix
    }
}

impl Default for BlobManager {
    fn default() -> (r: Self)
        ensures
            r.inv(),
            r@.files == Seq::<BlobFileView>::empty(),
            r@.threshold == DEFAULT_BLOB_THRESHOLD,
    {
        Self::new()
    }
}

} // verus!
