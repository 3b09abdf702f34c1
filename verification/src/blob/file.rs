//! Blob file: append-only file for storing large values.
//!
//! Each blob record is laid out as
//! `[key_prefix: 8 bytes] [length: u32 LE] [value] [crc32c: u32 LE]`,
//! where the checksum covers everything before it.

use vstd::prelude::*;
use vstd::bytes::{
    spec_u32_to_le_bytes, spec_u32_from_le_bytes, u32_to_le_bytes, u32_from_le_bytes,
    lemma_auto_spec_u32_to_from_le_bytes,
};
use vstd::slice::slice_subrange;
use crate::hashing::{crc32c, crc32c_of, law_crc32c_detects_changed_byte};
use crate::codec::{append_bytes, copy_range};

verus! {

/// Header (key prefix and length) plus footer (checksum) of a record.
pub open spec fn record_overhead() -> int {
    16
}

/// The bytes of a record before its checksum: prefix, length, value.
pub open spec fn record_body(prefix: Seq<u8>, value: Seq<u8>) -> Seq<u8> {
    prefix + spec_u32_to_le_bytes(value.len() as u32) + value
}

/// The serialized form of a record with key prefix `prefix` and value `value`.
pub open spec fn encode_record(prefix: Seq<u8>, value: Seq<u8>) -> Seq<u8> {
    record_body(prefix, value) + spec_u32_to_le_bytes(crc32c_of(record_body(prefix, value)))
}

/// The length field stored in a buffer that holds a record header.
pub open spec fn stored_length(buf: Seq<u8>) -> int {
    spec_u32_from_le_bytes(buf.subrange(8, 12)) as int
}

/// What deserializing the front of `buf` yields: the record's key prefix and
/// value, or `None` when the buffer is too short or the checksum does not match.
pub open spec fn decode_record(buf: Seq<u8>) -> Option<(Seq<u8>, Seq<u8>)> {
    if buf.len() < record_overhead() {
        None
    } else {
        let total = record_overhead() + stored_length(buf);
        if buf.len() < total {
            None
        } else if spec_u32_from_le_bytes(buf.subrange(total - 4, total)) != crc32c_of(
            buf.subrange(0, total - 4),
        ) {
            None
        } else {
            Some((buf.subrange(0, 8), buf.subrange(12, 12 + stored_length(buf))))
        }
    }
}

/// Serialized size of a record (prefix, value).
pub open spec fn record_span(r: (Seq<u8>, Seq<u8>)) -> int {
    record_overhead() + r.1.len()
}

/// Total serialized size of a sequence of records.
pub open spec fn total_span(recs: Seq<(Seq<u8>, Seq<u8>)>) -> int
    decreases recs.len(),
{
    if recs.len() == 0 {
        0
    } else {
        total_span(recs.drop_last()) + record_span(recs.last())
    }
}

/// Byte offset at which record `i` starts.
pub open spec fn record_start(recs: Seq<(Seq<u8>, Seq<u8>)>, i: int) -> int {
    total_span(recs.take(i))
}

/// The value stored in the record starting at `offset`, provided its length is `length`.
pub open spec fn read_at(recs: Seq<(Seq<u8>, Seq<u8>)>, offset: int, length: int) -> Option<Seq<u8>> {
    if exists|i: int| 0 <= i < recs.len() && record_start(recs, i) == offset {
        let i = choose|i: int| 0 <= i < recs.len() && record_start(recs, i) == offset;
        if recs[i].1.len() == length {
            Some(recs[i].1)
        } else {
            None
        }
    } else {
        None
    }
}

/// Serialization of a sequence of records, one after the other.
pub open spec fn encode_records(recs: Seq<(Seq<u8>, Seq<u8>)>) -> Seq<u8>
    decreases recs.len(),
{
    if recs.len() == 0 {
        Seq::empty()
    } else {
        encode_records(recs.drop_last()) + encode_record(recs.last().0, recs.last().1)
    }
}

/// The records read back from `buf`: records are decoded one after another
/// until the buffer ends or a record fails to decode.
pub open spec fn decode_records(buf: Seq<u8>) -> Seq<(Seq<u8>, Seq<u8>)>
    decreases buf.len(),
{
    if buf.len() == 0 {
        Seq::empty()
    } else {
        match decode_record(buf) {
            None => Seq::empty(),
            Some(r) => if record_span(r) <= buf.len() {
                seq![r] + decode_records(buf.skip(record_span(r)))
            } else {
                Seq::empty()
            },
        }
    }
}

/// Whether a record's value length fits the record's 32-bit length field.
pub open spec fn fits_length_field(r: (Seq<u8>, Seq<u8>)) -> bool {
    r.1.len() <= u32::MAX
}

/// A blob record stored in a blob file.
#[derive(Debug, Clone)]
pub struct BlobRecord {
    /// First 8 bytes of the key (for identification during GC).
    pub key_prefix: [u8; 8],
    /// The value data.
    pub value: Vec<u8>,
}

impl BlobRecord {
    /// Size of the serialized header (key prefix and length).
    pub const HEADER_SIZE: usize = 12;
    /// Size of the serialized footer (checksum).
    pub const FOOTER_SIZE: usize = 4;
    /// Header plus footer.
    pub const OVERHEAD_SIZE: usize = 16;

    /// The record as (key prefix, value).
    pub open spec fn spec_pair(&self) -> (Seq<u8>, Seq<u8>) {
        (self.key_prefix@, self.value@)
    }

    /// Create a new blob record.
    pub fn new(key_prefix: [u8; 8], value: Vec<u8>) -> (r: Self)
        ensures
            r.key_prefix == key_prefix,
            r.value@ == value@,
    {
        Self { key_prefix, value }
    }

    /// Total serialized size.
    pub fn serialized_size(&self) -> (r: usize)
        requires
            self.value@.len() + 16 <= usize::MAX,
        ensures
            r == record_span(self.spec_pair()),
    {
        Self::OVERHEAD_SIZE + self.value.len()
    }

    /// Serialize to bytes.
    pub fn to_bytes(&self) -> (r: Vec<u8>)
        ensures
            r@ == encode_record(self.key_prefix@, self.value@),
    {
        let mut buf: Vec<u8> = Vec::new();
        append_bytes(&mut buf, self.key_prefix.as_slice());
        let len_bytes = u32_to_le_bytes(self.value.len() as u32);
        append_bytes(&mut buf, len_bytes.as_slice());
        append_bytes(&mut buf, self.value.as_slice());
        let crc = crc32c(buf.as_slice());
        let crc_bytes = u32_to_le_bytes(crc);
        append_bytes(&mut buf, crc_bytes.as_slice());
        buf
    }

    /// Deserialize from bytes.
    ///
    /// Returns `None` if the buffer is shorter than the record it announces,
    /// or if the stored checksum does not match.
    pub fn from_bytes(buf: &[u8]) -> (r: Option<Self>)
        ensures
            match r {
                Some(rec) => decode_record(buf@) == Some(rec.spec_pair()),
                None => decode_record(buf@) is None,
            },
    {
        if buf.len() < Self::OVERHEAD_SIZE {
            return None;
        }
        let mut key_prefix: [u8; 8] = [0u8; 8];
        let mut i: usize = 0;
        while i < 8
            invariant
                i <= 8,
                buf@.len() >= 16,
                forall|j: int| 0 <= j < i ==> key_prefix@[j] == buf@[j],
            decreases 8 - i,
        {
            key_prefix[i] = buf[i];
            i = i + 1;
        }
        let length = u32_from_le_bytes(slice_subrange(buf, 8, 12));
        let total: u64 = 16u64 + length as u64;
        if (buf.len() as u64) < total {
            return None;
        }
        let total = total as usize;
        let stored_crc = u32_from_le_bytes(slice_subrange(buf, total - 4, total));
        let computed_crc = crc32c(slice_subrange(buf, 0, total - 4));
        if stored_crc != computed_crc {
            return None;
        }
        let value = copy_range(buf, 12, 12 + length as usize);
        proof {
            assert(key_prefix@ =~= buf@.subrange(0, 8));
        }
        Some(Self { key_prefix, value })
    }
}

/// Abstract state of a blob file.
pub struct BlobFileView {
    /// File ID.
    pub file_id: u32,
    /// Records in append order, as (key prefix, value).
    pub records: Seq<(Seq<u8>, Seq<u8>)>,
    /// Total bytes written.
    pub offset: u64,
    /// Number of valid (non-deleted) entries.
    pub valid_count: usize,
    /// Number of deleted entries.
    pub deleted_count: usize,
}

/// An append-only blob file.
///
/// Records are appended sequentially and never modified in place.
pub struct BlobFile {
    file_id: u32,
    records: Vec<BlobRecord>,
    offset: u64,
    valid_count: usize,
    deleted_count: usize,
}

impl View for BlobFile {
    type V = BlobFileView;

    closed spec fn view(&self) -> BlobFileView {
        BlobFileView {
            file_id: self.file_id,
            records: self.records@.map_values(|r: BlobRecord| r.spec_pair()),
            offset: self.offset,
            valid_count: self.valid_count,
            deleted_count: self.deleted_count,
        }
    }
}

/// Lemma: the span of the first `k + 1` records extends that of the first `k`.
pub proof fn lemma_total_span_take_succ(recs: Seq<(Seq<u8>, Seq<u8>)>, k: int)
    requires
        0 <= k < recs.len(),
    ensures
        total_span(recs.take(k + 1)) == total_span(recs.take(k)) + record_span(recs[k]),
{
    assert(recs.take(k + 1).drop_last() =~= recs.take(k));
}

/// Lemma: record start offsets strictly increase.
pub proof fn lemma_record_start_increases(recs: Seq<(Seq<u8>, Seq<u8>)>, i: int, j: int)
    requires
        0 <= i < j <= recs.len(),
    ensures
        record_start(recs, i) < record_start(recs, j),
    decreases j - i,
{
    lemma_total_span_take_succ(recs, j - 1);
    if i < j - 1 {
        lemma_record_start_increases(recs, i, j - 1);
    }
}

/// Lemma: the span of all records is the span of the whole sequence.
pub proof fn lemma_take_all(recs: Seq<(Seq<u8>, Seq<u8>)>)
    ensures
        record_start(recs, recs.len() as int) == total_span(recs),
{
    assert(recs.take(recs.len() as int) =~= recs);
}

/// Lemma: appending a record keeps earlier start offsets and starts the new
/// record at the old total span.
pub proof fn lemma_push_starts(recs: Seq<(Seq<u8>, Seq<u8>)>, r: (Seq<u8>, Seq<u8>), i: int)
    requires
        0 <= i <= recs.len(),
    ensures
        record_start(recs.push(r), i) == record_start(recs, i),
{
    assert(recs.push(r).take(i) =~= recs.take(i));
}

/// Lemma: the read of an offset is found at the unique record that starts there.
pub proof fn lemma_read_at_index(recs: Seq<(Seq<u8>, Seq<u8>)>, i: int, length: int)
    requires
        0 <= i < recs.len(),
    ensures
        read_at(recs, record_start(recs, i), length) == (if recs[i].1.len() == length {
            Some(recs[i].1)
        } else {
            None::<Seq<u8>>
        }),
{
    let offset = record_start(recs, i);
    assert(0 <= i < recs.len() && record_start(recs, i) == offset);
    let k = choose|k: int| 0 <= k < recs.len() && record_start(recs, k) == offset;
    if k < i {
        lemma_record_start_increases(recs, k, i);
    } else if i < k {
        lemma_record_start_increases(recs, i, k);
    }
}

/// Lemma: an offset at which no record starts reads as `None`.
pub proof fn lemma_read_at_none(recs: Seq<(Seq<u8>, Seq<u8>)>, offset: int, length: int)
    requires
        forall|i: int| 0 <= i < recs.len() ==> record_start(recs, i) != offset,
    ensures
        read_at(recs, offset, length) is None,
{
}

/// Lemma: a serialized record, followed by anything, decodes to that record.
pub proof fn lemma_decode_encoded(prefix: Seq<u8>, value: Seq<u8>, rest: Seq<u8>)
    requires
        prefix.len() == 8,
        value.len() <= u32::MAX,
    ensures
        decode_record(encode_record(prefix, value) + rest) == Some((prefix, value)),
        encode_record(prefix, value).len() == record_span((prefix, value)),
{
    lemma_auto_spec_u32_to_from_le_bytes();
    let body = record_body(prefix, value);
    let len_bytes = spec_u32_to_le_bytes(value.len() as u32);
    let crc_bytes = spec_u32_to_le_bytes(crc32c_of(body));
    let buf = encode_record(prefix, value) + rest;
    let n = value.len() as int;
    assert(buf.subrange(8, 12) =~= len_bytes);
    assert(stored_length(buf) == n);
    assert(buf.subrange(12 + n, 16 + n) =~= crc_bytes);
    assert(buf.subrange(0, 12 + n) =~= body);
    assert(buf.subrange(0, 8) =~= prefix);
    assert(buf.subrange(12, 12 + n) =~= value);
}

/// Lemma: the serialization of records decodes back to those records.
pub proof fn lemma_decode_encoded_records(recs: Seq<(Seq<u8>, Seq<u8>)>, rest: Seq<u8>)
    requires
        forall|i: int| 0 <= i < recs.len() ==> (#[trigger] recs[i]).0.len() == 8 && fits_length_field(
            recs[i],
        ),
        decode_records(rest) == Seq::<(Seq<u8>, Seq<u8>)>::empty(),
    ensures
        decode_records(encode_records(recs) + rest) == recs,
    decreases recs.len(),
{
    if recs.len() == 0 {
        assert(encode_records(recs) + rest =~= rest);
    } else {
        let first = recs[0];
        let tail = recs.skip(1);
        lemma_encode_records_front(recs);
        lemma_decode_encoded_records(tail, rest);
        let buf = encode_records(recs) + rest;
        let enc = encode_record(first.0, first.1);
        assert(buf =~= enc + (encode_records(tail) + rest));
        lemma_decode_encoded(first.0, first.1, encode_records(tail) + rest);
        assert(buf.len() > 0);
        assert(buf.skip(record_span(first)) =~= encode_records(tail) + rest);
        assert(recs =~= seq![first] + tail);
    }
}

/// Lemma: serializing records front-first equals serializing them back-first.
pub proof fn lemma_encode_records_front(recs: Seq<(Seq<u8>, Seq<u8>)>)
    requires
        recs.len() > 0,
    ensures
        encode_records(recs) == encode_record(recs[0].0, recs[0].1) + encode_records(recs.skip(1)),
    decreases recs.len(),
{
    if recs.len() == 1 {
        assert(recs.drop_last() =~= Seq::<(Seq<u8>, Seq<u8>)>::empty());
        assert(recs.skip(1) =~= Seq::<(Seq<u8>, Seq<u8>)>::empty());
        assert(encode_records(recs.skip(1)) =~= Seq::<u8>::empty());
        assert(encode_records(recs) =~= encode_record(recs[0].0, recs[0].1));
    } else {
        let init = recs.drop_last();
        lemma_encode_records_front(init);
        assert(init.skip(1) =~= recs.skip(1).drop_last());
        assert(recs.skip(1).last() == recs.last());
        assert(encode_records(recs) =~= encode_record(recs[0].0, recs[0].1) + encode_records(
            recs.skip(1),
        ));
    }
}

/// Law: a serialized record deserializes to the same key prefix and value
/// (for values whose length fits the 32-bit length field).
pub proof fn law_record_roundtrip(prefix: Seq<u8>, value: Seq<u8>)
    requires
        prefix.len() == 8,
        value.len() <= u32::MAX,
    ensures
        decode_record(encode_record(prefix, value)) == Some((prefix, value)),
{
    lemma_decode_encoded(prefix, value, Seq::empty());
    assert(encode_record(prefix, value) + Seq::<u8>::empty() =~= encode_record(prefix, value));
}

/// Law: a serialized record with one byte changed, anywhere but in its
/// length field, no longer deserializes: the checksum no longer matches.
pub proof fn law_record_detects_changed_byte(prefix: Seq<u8>, value: Seq<u8>, i: int, x: u8)
    requires
        prefix.len() == 8,
        value.len() <= u32::MAX,
        0 <= i < encode_record(prefix, value).len(),
        !(8 <= i < 12),
        x != encode_record(prefix, value)[i],
    ensures
        decode_record(encode_record(prefix, value).update(i, x)) is None,
{
    lemma_auto_spec_u32_to_from_le_bytes();
    lemma_decode_encoded(prefix, value, Seq::empty());
    let enc = encode_record(prefix, value);
    assert(enc + Seq::<u8>::empty() =~= enc);
    let body = record_body(prefix, value);
    let n = value.len() as int;
    let total = 16 + n;
    let buf = enc.update(i, x);
    assert(enc.subrange(8, 12) =~= spec_u32_to_le_bytes(value.len() as u32));
    assert(buf.subrange(8, 12) =~= enc.subrange(8, 12));
    assert(stored_length(buf) == n);
    assert(enc.subrange(0, 12 + n) =~= body);
    assert(enc.subrange(12 + n, total) =~= spec_u32_to_le_bytes(crc32c_of(body)));
    if i < 12 + n {
        assert(buf.subrange(0, 12 + n) =~= body.update(i, x));
        assert(buf.subrange(12 + n, total) =~= enc.subrange(12 + n, total));
        law_crc32c_detects_changed_byte(body, i, x);
    } else {
        assert(buf.subrange(0, 12 + n) =~= body);
        let stored = enc.subrange(12 + n, total);
        let changed = buf.subrange(12 + n, total);
        assert(changed =~= stored.update(i - 12 - n, x));
        if spec_u32_from_le_bytes(changed) == crc32c_of(body) {
            assert(spec_u32_to_le_bytes(spec_u32_from_le_bytes(changed)) == changed);
            assert(changed[i - 12 - n] == x);
            assert(stored[i - 12 - n] == enc[i]);
        }
    }
}

/// Law: a serialized blob file deserializes to the same records (for values
/// whose lengths fit the 32-bit length field).
pub proof fn law_file_roundtrip(recs: Seq<(Seq<u8>, Seq<u8>)>)
    requires
        forall|i: int| 0 <= i < recs.len() ==> (#[trigger] recs[i]).0.len() == 8 && fits_length_field(
            recs[i],
        ),
    ensures
        decode_records(encode_records(recs)) == recs,
{
    lemma_decode_encoded_records(recs, Seq::empty());
    assert(encode_records(recs) + Seq::<u8>::empty() =~= encode_records(recs));
}

/// Law: reading at the offset and length that an append returned gives back
/// the appended value (for values whose length fits the 32-bit length field).
pub proof fn law_read_after_append(recs: Seq<(Seq<u8>, Seq<u8>)>, r: (Seq<u8>, Seq<u8>))
    requires
        fits_length_field(r),
    ensures
        read_at(recs.push(r), total_span(recs), (r.1.len() as u32) as int) == Some(r.1),
{
    let n = recs.len() as int;
    lemma_push_starts(recs, r, n);
    lemma_take_all(recs);
    lemma_read_at_index(recs.push(r), n, (r.1.len() as u32) as int);
}

/// Law: an append leaves the reads of every other offset unchanged.
pub proof fn law_append_keeps_reads(
    recs: Seq<(Seq<u8>, Seq<u8>)>,
    r: (Seq<u8>, Seq<u8>),
    offset: int,
    length: int,
)
    requires
        offset != total_span(recs),
    ensures
        read_at(recs.push(r), offset, length) == read_at(recs, offset, length),
{
    let new_recs = recs.push(r);
    let n = recs.len() as int;
    lemma_push_starts(recs, r, n);
    lemma_take_all(recs);
    if exists|i: int| 0 <= i < new_recs.len() && record_start(new_recs, i) == offset {
        let i = choose|i: int| 0 <= i < new_recs.len() && record_start(new_recs, i) == offset;
        assert(i != n);
        lemma_push_starts(recs, r, i);
        lemma_read_at_index(new_recs, i, length);
        lemma_read_at_index(recs, i, length);
    } else {
        assert forall|i: int| 0 <= i < recs.len() implies record_start(recs, i) != offset by {
            lemma_push_starts(recs, r, i);
        }
    }
}

impl BlobFile {
    /// Internal consistency: the offset is the total size of the records and
    /// the valid count never exceeds the number of records.
    pub open spec fn inv(&self) -> bool {
        &&& self@.offset == total_span(self@.records)
        &&& self@.valid_count <= self@.records.len()
    }

    /// Create a new empty blob file.
    pub fn new(file_id: u32) -> (r: Self)
        ensures
            r.inv(),
            r@.file_id == file_id,
            r@.records == Seq::<(Seq<u8>, Seq<u8>)>::empty(),
            r@.offset == 0,
            r@.valid_count == 0,
            r@.deleted_count == 0,
    {
        let r = Self { file_id, records: Vec::new(), offset: 0, valid_count: 0, deleted_count: 0 };
        proof {
            assert(r@.records =~= Seq::<(Seq<u8>, Seq<u8>)>::empty());
        }
        r
    }

    /// Get the file ID.
    pub fn file_id(&self) -> (r: u32)
        ensures
            r == self@.file_id,
    {
        self.file_id
    }

    /// Current write offset.
    pub fn offset(&self) -> (r: u64)
        ensures
            r == self@.offset,
    {
        self.offset
    }

    /// Number of records in the file.
    pub fn record_count(&self) -> (r: usize)
        ensures
            r == self@.records.len(),
    {
        self.records.len()
    }

    /// Whether the file needs garbage collection (more than half deleted).
    pub fn needs_gc(&self) -> (r: bool)
        ensures
            r == ({
                let total = self@.valid_count + self@.deleted_count;
                total > 0 && self@.deleted_count > total / 2
            }),
    {
        let total: u128 = self.valid_count as u128 + self.deleted_count as u128;
        total > 0 && (self.deleted_count as u128) > total / 2
    }

    /// Append a value and return its record's offset and the value's length.
    pub fn append(&mut self, key_prefix: [u8; 8], value: Vec<u8>) -> (r: (u64, u32))
        requires
            old(self).inv(),
            old(self)@.offset + 16 + value@.len() <= u64::MAX,
            old(self)@.records.len() < usize::MAX,
        ensures
            final(self).inv(),
            final(self)@.file_id == old(self)@.file_id,
            final(self)@.records == old(self)@.records.push((key_prefix@, value@)),
            final(self)@.offset == old(self)@.offset + 16 + value@.len(),
            final(self)@.valid_count == old(self)@.valid_count + 1,
            final(self)@.deleted_count == old(self)@.deleted_count,
            r.0 == old(self)@.offset,
            r.0 == total_span(old(self)@.records),
            r.1 == value@.len() as u32,
    {
        let ghost old_recs = self@.records;
        let record = BlobRecord::new(key_prefix, value);
        let length = record.value.len() as u32;
        let current_offset = self.offset;
        let size: u64 = 16u64 + record.value.len() as u64;
        self.offset = self.offset + size;
        self.valid_count = self.valid_count + 1;
        self.records.push(record);
        proof {
            let new_recs = self@.records;
            assert(new_recs =~= old_recs.push((key_prefix@, value@)));
            assert(new_recs.drop_last() =~= old_recs);
        }
        (current_offset, length)
    }

    /// Read the value of the record that starts at `offset`, if its length is `length`.
    pub fn read(&self, offset: u64, length: u32) -> (r: Option<&[u8]>)
        requires
            self.inv(),
        ensures
            match r {
                Some(v) => read_at(self@.records, offset as int, length as int) == Some(v@),
                None => read_at(self@.records, offset as int, length as int) is None,
            },
    {
        let ghost recs = self@.records;
        let mut current_offset: u64 = 0;
        let n = self.records.len();
        let mut i: usize = 0;
        proof {
            assert(recs.take(0) =~= Seq::<(Seq<u8>, Seq<u8>)>::empty());
            lemma_take_all(recs);
        }
        while i < n
            invariant
                self.inv(),
                recs == self@.records,
                n == recs.len(),
                i <= n,
                current_offset == record_start(recs, i as int),
                forall|j: int| 0 <= j < i ==> record_start(recs, j) != offset,
            decreases n - i,
        {
            let record = &self.records[i];
            proof {
                lemma_total_span_take_succ(recs, i as int);
                lemma_take_all(recs);
                if i + 1 < n {
                    lemma_record_start_increases(recs, i + 1, n as int);
                }
                assert(recs[i as int] == record.spec_pair());
            }
            if current_offset == offset {
                proof {
                    lemma_read_at_index(recs, i as int, length as int);
                }
                if record.value.len() == length as usize {
                    return Some(record.value.as_slice());
                }
                return None;
            }
            let record_size: u64 = 16u64 + record.value.len() as u64;
            current_offset = current_offset + record_size;
            i = i + 1;
        }
        proof {
            lemma_read_at_none(recs, offset as int, length as int);
        }
        None
    }

    /// Mark an entry as deleted: counts one more deleted entry and one fewer
    /// valid entry (the offset is not tracked).
    pub fn mark_deleted(&mut self, _offset: u64)
        requires
            old(self).inv(),
            old(self)@.deleted_count < usize::MAX,
        ensures
            final(self).inv(),
            final(self)@.file_id == old(self)@.file_id,
            final(self)@.records == old(self)@.records,
            final(self)@.offset == old(self)@.offset,
            final(self)@.deleted_count == old(self)@.deleted_count + 1,
            final(self)@.valid_count == if old(self)@.valid_count > 0 {
                old(self)@.valid_count - 1
            } else {
                0
            },
    {
        self.deleted_count = self.deleted_count + 1;
        if self.valid_count > 0 {
            self.valid_count = self.valid_count - 1;
        }
    }

    /// Serialize all records to bytes.
    pub fn to_bytes(&self) -> (r: Vec<u8>)
        ensures
            r@ == encode_records(self@.records),
    {
        let ghost recs = self@.records;
        let mut buf: Vec<u8> = Vec::new();
        let n = self.records.len();
        let mut i: usize = 0;
        proof {
            assert(recs.take(0) =~= Seq::<(Seq<u8>, Seq<u8>)>::empty());
        }
        while i < n
            invariant
                recs == self@.records,
                n == recs.len(),
                i <= n,
                buf@ == encode_records(recs.take(i as int)),
            decreases n - i,
        {
            let bytes = self.records[i].to_bytes();
            append_bytes(&mut buf, bytes.as_slice());
            proof {
                assert(recs.take(i + 1).drop_last() =~= recs.take(i as int));
                assert(recs[i as int] == self.records@[i as int].spec_pair());
            }
            i = i + 1;
        }
        proof {
            assert(recs.take(n as int) =~= recs);
        }
        buf
    }

    /// Deserialize from bytes: records are read one after another until the
    /// buffer ends or a record fails to decode. Always returns `Some`.
    pub fn from_bytes(file_id: u32, buf: &[u8]) -> (r: Option<Self>)
        ensures
            r is Some,
            r.unwrap().inv(),
            r.unwrap()@.file_id == file_id,
            r.unwrap()@.records == decode_records(buf@),
            r.unwrap()@.offset == total_span(decode_records(buf@)),
            r.unwrap()@.valid_count == decode_records(buf@).len(),
            r.unwrap()@.deleted_count == 0,
    {
        let mut records: Vec<BlobRecord> = Vec::new();
        let mut pos: usize = 0;
        let ghost full = buf@;
        let mut offset: u64 = 0;
        proof {
            assert(full.skip(0) =~= full);
            assert(records@.map_values(|r: BlobRecord| r.spec_pair()) =~= Seq::<(Seq<u8>, Seq<u8>)>::empty());
            assert(Seq::<(Seq<u8>, Seq<u8>)>::empty() + decode_records(full) =~= decode_records(full));
        }
        loop
            invariant_except_break
                pos <= buf@.len(),
                full == buf@,
                offset == total_span(records@.map_values(|r: BlobRecord| r.spec_pair())),
                offset == pos,
                records@.map_values(|r: BlobRecord| r.spec_pair()) + decode_records(
                    full.skip(pos as int),
                ) == decode_records(full),
            ensures
                offset == total_span(records@.map_values(|r: BlobRecord| r.spec_pair())),
                records@.map_values(|r: BlobRecord| r.spec_pair()) == decode_records(full),
            decreases buf@.len() - pos,
        {
            if pos >= buf.len() {
                proof {
                    assert(full.skip(pos as int) =~= Seq::<u8>::empty());
                    assert(records@.map_values(|r: BlobRecord| r.spec_pair()) + decode_records(
                        full.skip(pos as int),
                    ) =~= records@.map_values(|r: BlobRecord| r.spec_pair()));
                }
                break;
            }
            let rest = slice_subrange(buf, pos, buf.len());
            proof {
                assert(rest@ =~= full.skip(pos as int));
            }
            match BlobRecord::from_bytes(rest) {
                Some(record) => {
                    let ghost old_view = records@.map_values(|r: BlobRecord| r.spec_pair());
                    let ghost pair = record.spec_pair();
                    proof {
                        assert(record_span(pair) <= rest@.len());
                        assert(decode_records(rest@) == seq![pair] + decode_records(
                            rest@.skip(record_span(pair)),
                        ));
                    }
                    let size: usize = 16 + record.value.len();
                    proof {
                        assert(rest@.skip(size as int) =~= full.skip(pos + size));
                    }
                    records.push(record);
                    pos = pos + size;
                    offset = offset + size as u64;
                    proof {
                        let new_view = records@.map_values(|r: BlobRecord| r.spec_pair());
                        assert(new_view =~= old_view.push(pair));
                        assert(new_view.drop_last() =~= old_view);
                        assert(new_view + decode_records(full.skip(pos as int)) =~= old_view + (seq![pair]
                            + decode_records(full.skip(pos as int))));
                    }
                },
                None => {
                    proof {
                        assert(decode_records(rest@) =~= Seq::<(Seq<u8>, Seq<u8>)>::empty());
                        assert(records@.map_values(|r: BlobRecord| r.spec_pair()) + decode_records(
                            rest@,
                        ) =~= records@.map_values(|r: BlobRecord| r.spec_pair()));
                    }
                    break;
                },
            }
        }
        let valid_count = records.len();
        let r = Self { file_id, records, offset, valid_count, deleted_count: 0 };
        Some(r)
    }
}

} // verus!
