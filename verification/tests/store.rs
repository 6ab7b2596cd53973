use quicktag::cache::TagCache;
use quicktag::progress::ScanStatus;
use quicktag::scanner::ScanResult;
use quicktag::scanner::ScannedHash;
use quicktag::store::decode_tag_cache;
use quicktag::store::encode_tag_cache;
use quicktag::store::frame_outcome;
use quicktag::store::row_scan_result;
use quicktag::store::scan_result_row;
use quicktag::store::store_tag_cache;
use quicktag::store::tag_cache_from_rows;
use quicktag::store::tag_cache_rows;
use quicktag::store::load_tag_cache;
use quicktag::store::CacheRow;
use quicktag::store::StoreError;
use quicktag::store::COMPRESSION_LEVEL;
use quicktag::transform::transform_tag_cache;
use std::collections::HashMap;

fn sample_result() -> ScanResult {
    ScanResult {
        file_hashes: vec![ScannedHash {
            offset: 16,
            hash: 0x80A0_0001,
        }],
        file_hashes64: vec![ScannedHash {
            offset: 8,
            hash: 0x1122_3344_5566_7788,
        }],
        string_hashes: vec![ScannedHash {
            offset: 4,
            hash: 0x811c_9dc5,
        }],
        references: vec![7, 7],
    }
}

fn sample_bytes() -> Vec<u8> {
    let mut bytes: Vec<u8> = Vec::new();
    bytes.extend_from_slice(&1u64.to_le_bytes());
    bytes.extend_from_slice(&0x80A0_0005u32.to_le_bytes());
    bytes.extend_from_slice(&1u64.to_le_bytes());
    bytes.extend_from_slice(&16u64.to_le_bytes());
    bytes.extend_from_slice(&0x80A0_0001u32.to_le_bytes());
    bytes.extend_from_slice(&1u64.to_le_bytes());
    bytes.extend_from_slice(&8u64.to_le_bytes());
    bytes.extend_from_slice(&0x1122_3344_5566_7788u64.to_le_bytes());
    bytes.extend_from_slice(&1u64.to_le_bytes());
    bytes.extend_from_slice(&4u64.to_le_bytes());
    bytes.extend_from_slice(&0x811c_9dc5u32.to_le_bytes());
    bytes.extend_from_slice(&2u64.to_le_bytes());
    bytes.extend_from_slice(&7u32.to_le_bytes());
    bytes.extend_from_slice(&7u32.to_le_bytes());
    bytes
}

fn large_cache() -> TagCache {
    let mut cache = TagCache::default();
    for k in 0u32..200 {
        let mut scan = ScanResult::default();
        for j in 0..(k % 7) {
            scan.file_hashes.push(ScannedHash {
                offset: 4 * j as u64,
                hash: 0x80A0_0000 + (k + j) % 200,
            });
        }
        for j in 0..(k % 3) {
            scan.file_hashes64.push(ScannedHash {
                offset: 8 * j as u64,
                hash: u64::MAX - (k as u64) * 31 - j as u64,
            });
        }
        if k % 5 == 0 {
            scan.string_hashes.push(ScannedHash {
                offset: u64::MAX - 3,
                hash: 0x811c_9dc5,
            });
        }
        cache.insert(0x80A0_0000 + k, scan);
    }
    cache
}

#[test]
fn stored_cache_loads_back_equal() {
    let mut table: HashMap<u64, u32> = HashMap::new();
    for k in 0u64..50 {
        table.insert(u64::MAX - k * 31, 0x80A0_0000 + k as u32);
    }
    let cache = transform_tag_cache(large_cache(), &table);
    assert!(cache.values().any(|scan| scan.references.len() > 1));
    let frame = encode_tag_cache(&cache).unwrap();
    let loaded = decode_tag_cache(&frame).unwrap();
    assert_eq!(loaded, cache);
}

#[test]
fn empty_cache_loads_back_empty() {
    let frame = encode_tag_cache(&TagCache::default()).unwrap();
    let loaded = decode_tag_cache(&frame).unwrap();
    assert!(loaded.is_empty());
}

#[test]
fn stored_form_is_a_zstd_frame_of_bincode_rows() {
    let mut cache = TagCache::default();
    cache.insert(0x80A0_0005, sample_result());
    let frame = encode_tag_cache(&cache).unwrap();
    assert_ne!(frame, sample_bytes());
    let unpacked = zstd::stream::decode_all(&frame[..]).unwrap();
    assert_eq!(unpacked, sample_bytes());
}

#[test]
fn stored_form_is_compressed_at_level_five() {
    assert_eq!(COMPRESSION_LEVEL, 5);
    let mut cache = TagCache::default();
    cache.insert(0x80A0_0005, sample_result());
    let frame = encode_tag_cache(&cache).unwrap();
    assert_eq!(frame, zstd::stream::encode_all(&sample_bytes()[..], 5).unwrap());
}

#[test]
fn frame_written_by_hand_loads() {
    let frame = zstd::stream::encode_all(&sample_bytes()[..], 5).unwrap();
    let loaded = decode_tag_cache(&frame).unwrap();
    assert_eq!(loaded.len(), 1);
    assert_eq!(loaded[&0x80A0_0005], sample_result());
}

#[test]
fn frame_of_a_serialized_map_loads() {
    let mut stored: HashMap<u32, (Vec<(u64, u32)>, Vec<(u64, u64)>, Vec<(u64, u32)>, Vec<u32>)> =
        HashMap::new();
    stored.insert(5, (vec![(0, 6)], vec![], vec![(4, 1), (8, 2)], vec![6]));
    stored.insert(6, (vec![], vec![(16, 99)], vec![], vec![]));
    let bytes = bincode::serialize(&stored).unwrap();
    let frame = zstd::stream::encode_all(&bytes[..], 3).unwrap();
    let loaded = decode_tag_cache(&frame).unwrap();
    assert_eq!(loaded.len(), 2);
    assert_eq!(
        loaded[&5],
        ScanResult {
            file_hashes: vec![ScannedHash { offset: 0, hash: 6 }],
            file_hashes64: vec![],
            string_hashes: vec![
                ScannedHash { offset: 4, hash: 1 },
                ScannedHash { offset: 8, hash: 2 }
            ],
            references: vec![6],
        }
    );
    assert_eq!(
        loaded[&6],
        ScanResult {
            file_hashes: vec![],
            file_hashes64: vec![ScannedHash {
                offset: 16,
                hash: 99
            }],
            string_hashes: vec![],
            references: vec![],
        }
    );
}

#[test]
fn bytes_that_are_no_frame_fail_at_the_compression_layer() {
    assert_eq!(decode_tag_cache(b"not a cache"), Err(StoreError::Compression));
    assert_eq!(decode_tag_cache(&sample_bytes()), Err(StoreError::Compression));
}

#[test]
fn truncated_frame_fails_at_the_compression_layer() {
    let frame = encode_tag_cache(&large_cache()).unwrap();
    assert_eq!(
        decode_tag_cache(&frame[..frame.len() / 2]),
        Err(StoreError::Compression)
    );
    assert_eq!(
        decode_tag_cache(&frame[..frame.len() - 1]),
        Err(StoreError::Compression)
    );
}

#[test]
fn frame_of_truncated_rows_fails_at_the_encoding_layer() {
    let bytes = sample_bytes();
    let frame = zstd::stream::encode_all(&bytes[..bytes.len() - 3], 5).unwrap();
    assert_eq!(decode_tag_cache(&frame), Err(StoreError::Encoding));
    let frame = zstd::stream::encode_all(&bytes[..4], 5).unwrap();
    assert_eq!(decode_tag_cache(&frame), Err(StoreError::Encoding));
}

#[test]
fn no_bytes_at_all_fail_at_the_compression_layer() {
    assert_eq!(decode_tag_cache(&[]), Err(StoreError::Compression));
}

#[test]
fn bytes_behind_the_rows_are_ignored() {
    let mut bytes = sample_bytes();
    bytes.extend_from_slice(&[1, 2, 3]);
    let frame = zstd::stream::encode_all(&bytes[..], 5).unwrap();
    let loaded = decode_tag_cache(&frame).unwrap();
    assert_eq!(loaded.len(), 1);
    assert_eq!(loaded[&0x80A0_0005], sample_result());
}

#[test]
fn later_row_replaces_an_earlier_one_with_the_same_key() {
    let rows: Vec<CacheRow> = vec![
        (1, (vec![(0, 10)], vec![], vec![], vec![])),
        (2, (vec![], vec![], vec![], vec![5])),
        (1, (vec![(4, 11)], vec![], vec![], vec![])),
    ];
    let cache = tag_cache_from_rows(&rows);
    assert_eq!(cache.len(), 2);
    assert_eq!(
        cache[&1].file_hashes,
        vec![ScannedHash {
            offset: 4,
            hash: 11
        }]
    );
    assert_eq!(cache[&2].references, vec![5]);
}

#[test]
fn rows_list_every_entry_once() {
    let cache = large_cache();
    let rows = tag_cache_rows(&cache);
    assert_eq!(rows.len(), cache.len());
    let mut keys: Vec<u32> = rows.iter().map(|row| row.0).collect();
    keys.sort();
    keys.dedup();
    assert_eq!(keys.len(), cache.len());
    for row in &rows {
        assert_eq!(row_scan_result(row), cache[&row.0]);
    }
    assert_eq!(tag_cache_from_rows(&rows), cache);
}

#[test]
fn row_holds_the_lists_as_pairs() {
    let row = scan_result_row(0x80A0_0005, &sample_result());
    let expected: CacheRow = (
        0x80A0_0005,
        (
            vec![(16, 0x80A0_0001)],
            vec![(8, 0x1122_3344_5566_7788)],
            vec![(4, 0x811c_9dc5)],
            vec![7, 7],
        ),
    );
    assert_eq!(row, expected);
    assert_eq!(row_scan_result(&row), sample_result());
}

#[test]
fn missing_cache_file_is_absent_and_starts_a_build() {
    let (cache, status) = load_tag_cache(None);
    assert!(cache.is_none());
    assert_eq!(status, ScanStatus::CreatingScanner);
}

#[test]
fn corrupt_cache_file_is_absent_and_starts_a_build() {
    let (cache, status) = load_tag_cache(Some(b"\x28\xb5\x2f\xfd garbage"));
    assert!(cache.is_none());
    assert_eq!(status, ScanStatus::CreatingScanner);
}

#[test]
fn loaded_cache_ends_the_run() {
    let frame = encode_tag_cache(&large_cache()).unwrap();
    let (cache, status) = load_tag_cache(Some(&frame));
    assert_eq!(cache.unwrap(), large_cache());
    assert_eq!(status, ScanStatus::Idle);
}

#[test]
fn outside_errors_name_their_layer() {
    let rows: Result<Vec<CacheRow>, bincode::Error> = bincode::deserialize(&[1u8]);
    assert_eq!(StoreError::from(rows.unwrap_err()), StoreError::Encoding);
    let bytes = zstd::stream::decode_all(&b"no frame"[..]);
    assert_eq!(StoreError::from(bytes.unwrap_err()), StoreError::Compression);
}

#[test]
fn frame_of_the_compressor_is_the_stored_form() {
    assert_eq!(frame_outcome(Ok(vec![1, 2, 3])), Ok(vec![1, 2, 3]));
    assert_eq!(frame_outcome(Ok(vec![])), Ok(vec![]));
}

#[test]
fn failure_of_the_compressor_is_a_failure_at_the_compression_layer() {
    let error = std::io::Error::new(std::io::ErrorKind::Other, "out of memory");
    assert_eq!(frame_outcome(Err(error)), Err(StoreError::Compression));
}

#[test]
fn caches_of_integers_always_store() {
    assert!(encode_tag_cache(&TagCache::default()).is_ok());
    assert!(encode_tag_cache(&large_cache()).is_ok());
}

#[test]
fn store_step_ends_the_run() {
    let (stored, status) = store_tag_cache(&large_cache());
    assert_eq!(status, ScanStatus::Idle);
    assert_eq!(decode_tag_cache(&stored.unwrap()).unwrap(), large_cache());
}

#[test]
fn store_step_gives_the_stored_form() {
    let mut cache = TagCache::default();
    cache.insert(0x80A0_0005, sample_result());
    let (stored, status) = store_tag_cache(&cache);
    assert_eq!(status, ScanStatus::Idle);
    assert_eq!(stored, encode_tag_cache(&cache));
    assert_eq!(
        stored.unwrap(),
        zstd::stream::encode_all(&sample_bytes()[..], COMPRESSION_LEVEL).unwrap()
    );
}

#[test]
fn other_compression_levels_give_other_frames() {
    let frame = encode_tag_cache(&large_cache()).unwrap();
    let unpacked = zstd::stream::decode_all(&frame[..]).unwrap();
    assert_eq!(frame, zstd::stream::encode_all(&unpacked[..], 5).unwrap());
    assert_ne!(frame, zstd::stream::encode_all(&unpacked[..], 22).unwrap());
}
