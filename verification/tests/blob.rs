use seerdb::blob::{BlobFile, BlobManager, BlobRecord, DEFAULT_BLOB_THRESHOLD};

#[test]
fn test_blob_record_roundtrip() {
    let record = BlobRecord::new([1, 2, 3, 4, 5, 6, 7, 8], vec![10, 20, 30]);
    let bytes = record.to_bytes();
    let restored = BlobRecord::from_bytes(&bytes).unwrap();

    assert_eq!(restored.key_prefix, record.key_prefix);
    assert_eq!(restored.value, record.value);
}

#[test]
fn test_blob_file_append() {
    let mut file = BlobFile::new(1);
    let (offset, length) = file.append([0; 8], vec![1, 2, 3]);

    assert_eq!(offset, 0);
    assert_eq!(length, 3);
    assert_eq!(file.record_count(), 1);
}

#[test]
fn test_blob_file_read() {
    let mut file = BlobFile::new(1);
    let (offset, length) = file.append([0; 8], vec![10, 20, 30]);

    let data = file.read(offset, length).unwrap();
    assert_eq!(data, &[10, 20, 30]);
}

#[test]
fn test_blob_file_gc() {
    let mut file = BlobFile::new(1);
    file.append([0; 8], vec![1]);
    file.append([0; 8], vec![2]);
    file.append([0; 8], vec![3]);

    assert!(!file.needs_gc());

    file.mark_deleted(0);
    file.mark_deleted(1);

    assert!(file.needs_gc());
}

#[test]
fn test_blob_file_serialization() {
    let mut file = BlobFile::new(1);
    file.append([1, 2, 3, 4, 5, 6, 7, 8], vec![10, 20, 30]);
    file.append([9, 10, 11, 12, 13, 14, 15, 16], vec![40, 50, 60]);

    let bytes = file.to_bytes();
    let restored = BlobFile::from_bytes(1, &bytes).unwrap();

    assert_eq!(restored.record_count(), 2);
}

#[test]
fn test_blob_record_crc() {
    let record = BlobRecord::new([0; 8], vec![1, 2, 3]);
    let mut bytes = record.to_bytes();

    let len = bytes.len();
    bytes[len - 5] ^= 0xFF;

    assert!(BlobRecord::from_bytes(&bytes).is_none());
}

#[test]
fn test_blob_manager_new() {
    let bm = BlobManager::new();
    assert_eq!(bm.threshold(), DEFAULT_BLOB_THRESHOLD);
    assert_eq!(bm.file_count(), 0);
}

#[test]
fn test_should_separate() {
    let bm = BlobManager::new();
    assert!(!bm.should_separate(100));
    assert!(!bm.should_separate(1024));
    assert!(bm.should_separate(1025));
}

#[test]
fn test_blob_append_and_read() {
    let mut bm = BlobManager::new();
    let value = vec![42u8; 2000];

    let ptr = bm.append(b"test_key", value.clone());
    assert_eq!(ptr.length, 2000);
    assert!(ptr.offset > 0 || ptr.offset == 0);

    let read_value = bm.read(&ptr).unwrap();
    assert_eq!(read_value, &value);
}

#[test]
fn test_blob_multiple_appends() {
    let mut bm = BlobManager::new();

    let ptr1 = bm.append(b"key1", vec![1; 1500]);
    let ptr2 = bm.append(b"key2", vec![2; 1500]);

    assert_eq!(bm.read(&ptr1).unwrap(), &vec![1; 1500]);
    assert_eq!(bm.read(&ptr2).unwrap(), &vec![2; 1500]);
}

#[test]
fn test_blob_gc() {
    let mut bm = BlobManager::new();

    let ptr1 = bm.append(b"key1", vec![1; 1500]);
    let ptr2 = bm.append(b"key2", vec![2; 1500]);
    let _ptr3 = bm.append(b"key3", vec![3; 1500]);

    assert!(bm.files_needing_gc().is_empty());

    bm.mark_deleted(&ptr1);
    bm.mark_deleted(&ptr2);

    assert!(!bm.files_needing_gc().is_empty());
}

#[test]
fn test_blob_key_prefix() {
    let prefix = BlobManager::make_key_prefix(b"hello");
    assert_eq!(&prefix, b"hello\0\0\0");

    let prefix = BlobManager::make_key_prefix(b"hello_world!");
    assert_eq!(&prefix, b"hello_wo");
}

#[test]
fn blob_record_layout_and_size() {
    let record = BlobRecord::new([7; 8], vec![1, 2, 3, 4]);
    assert_eq!(record.serialized_size(), 4 + 16);
    let bytes = record.to_bytes();
    assert_eq!(bytes.len(), 20);
    assert_eq!(&bytes[0..8], &[7; 8]);
    assert_eq!(&bytes[8..12], &4u32.to_le_bytes());
    assert_eq!(&bytes[12..16], &[1, 2, 3, 4]);
}

#[test]
fn blob_record_rejects_short_and_truncated_input() {
    assert!(BlobRecord::from_bytes(&[0u8; 15]).is_none());
    let bytes = BlobRecord::new([0; 8], vec![9; 10]).to_bytes();
    assert!(BlobRecord::from_bytes(&bytes[..bytes.len() - 1]).is_none());
}

#[test]
fn blob_record_crc_changes_with_value() {
    let a = BlobRecord::new([0; 8], vec![1, 2, 3]).to_bytes();
    let b = BlobRecord::new([0; 8], vec![1, 2, 4]).to_bytes();
    assert_ne!(&a[a.len() - 4..], &b[b.len() - 4..]);
}

#[test]
fn blob_file_offsets_advance_and_reads_stay_valid() {
    let mut file = BlobFile::new(3);
    let (o1, l1) = file.append([1; 8], vec![5; 7]);
    let (o2, l2) = file.append([2; 8], vec![6; 9]);
    assert_eq!(o1, 0);
    assert_eq!(o2, (7 + 16) as u64);
    assert_eq!(file.offset(), (7 + 16 + 9 + 16) as u64);
    assert_eq!(file.read(o1, l1).unwrap(), &[5; 7]);
    assert_eq!(file.read(o2, l2).unwrap(), &[6; 9]);
    assert!(file.read(o2, l2 + 1).is_none());
    assert!(file.read(1, 3).is_none());
    assert_eq!(file.file_id(), 3);
}

#[test]
fn blob_file_roundtrip_keeps_reads() {
    let mut file = BlobFile::new(2);
    let (o, l) = file.append([4; 8], vec![8, 9]);
    let bytes = file.to_bytes();
    let restored = BlobFile::from_bytes(2, &bytes).unwrap();
    assert_eq!(restored.read(o, l).unwrap(), &[8, 9]);
    assert_eq!(restored.offset(), file.offset());
}

#[test]
fn blob_file_from_bytes_stops_at_corruption() {
    let mut file = BlobFile::new(1);
    file.append([0; 8], vec![1, 2, 3]);
    file.append([1; 8], vec![4, 5]);
    let mut bytes = file.to_bytes();
    let last = bytes.len() - 1;
    bytes[last] ^= 1;
    let restored = BlobFile::from_bytes(1, &bytes).unwrap();
    assert_eq!(restored.record_count(), 1);
    assert_eq!(restored.offset(), (3 + 16) as u64);
}

#[test]
fn blob_manager_custom_threshold() {
    let bm = BlobManager::with_threshold(10);
    assert_eq!(bm.threshold(), 10);
    assert!(!bm.should_separate(10));
    assert!(bm.should_separate(11));
}

#[test]
fn blob_manager_read_of_unknown_file_is_none() {
    let mut bm = BlobManager::new();
    let mut ptr = bm.append(b"k", vec![1; 2000]);
    ptr.file_id = 99;
    assert!(bm.read(&ptr).is_none());
}

/// CRC-32C computed bit by bit, as the library's contract states it.
fn bitwise_crc32c(data: &[u8]) -> u32 {
    let mut crc: u32 = 0xFFFF_FFFF;
    for b in data {
        crc ^= *b as u32;
        for _ in 0..8 {
            crc = if crc & 1 == 1 { (crc >> 1) ^ 0x82F6_3B78 } else { crc >> 1 };
        }
    }
    !crc
}

#[test]
fn blob_record_checksum_is_crc32c() {
    assert_eq!(bitwise_crc32c(b"123456789"), 0xE306_9283);
    let record = BlobRecord::new([1, 2, 3, 4, 5, 6, 7, 8], b"123456789".to_vec());
    let bytes = record.to_bytes();
    let body = &bytes[..bytes.len() - 4];
    let stored = u32::from_le_bytes([
        bytes[bytes.len() - 4],
        bytes[bytes.len() - 3],
        bytes[bytes.len() - 2],
        bytes[bytes.len() - 1],
    ]);
    assert_eq!(stored, bitwise_crc32c(body));
}

#[test]
fn blob_record_rejects_any_changed_byte_outside_length() {
    let record = BlobRecord::new([1, 2, 3, 4, 5, 6, 7, 8], vec![10, 20, 30, 40]);
    let bytes = record.to_bytes();
    for i in 0..bytes.len() {
        if (8..12).contains(&i) {
            continue;
        }
        let mut changed = bytes.clone();
        changed[i] ^= 0x5A;
        assert!(BlobRecord::from_bytes(&changed).is_none(), "byte {}", i);
    }
    assert!(BlobRecord::from_bytes(&bytes).is_some());
}
