use nohash_hasher::IntSet;
use quicktag::context::ScannerContext;
use quicktag::scanner::scan_file;
use quicktag::scanner::ScanResult;
use quicktag::scanner::ScannedArray;
use quicktag::scanner::ScannedHash;
use quicktag::scanner::EMPTY_STRING_HASH;

fn context_of(files: &[u32], files64: &[u64], strings: &[u32]) -> ScannerContext {
    let mut valid_file_hashes: IntSet<u32> = IntSet::default();
    for v in files {
        valid_file_hashes.insert(*v);
    }
    let mut valid_file_hashes64: IntSet<u64> = IntSet::default();
    for v in files64 {
        valid_file_hashes64.insert(*v);
    }
    let mut known_string_hashes: IntSet<u32> = IntSet::default();
    for v in strings {
        known_string_hashes.insert(*v);
    }
    ScannerContext {
        valid_file_hashes,
        valid_file_hashes64,
        known_string_hashes,
    }
}

fn put32(data: &mut [u8], at: usize, value: u32) {
    data[at..at + 4].copy_from_slice(&value.to_le_bytes());
}

fn put64(data: &mut [u8], at: usize, value: u64) {
    data[at..at + 8].copy_from_slice(&value.to_le_bytes());
}

#[test]
fn identifier_at_offset_16_is_the_only_match() {
    let tag: u32 = 0x80A0_0123;
    let context = context_of(&[tag], &[], &[]);
    let mut data = vec![0u8; 32];
    put32(&mut data, 16, tag);
    let scan = scan_file(&context, &data);
    assert_eq!(
        scan.file_hashes,
        vec![ScannedHash {
            offset: 16,
            hash: tag
        }]
    );
    assert!(scan.string_hashes.is_empty());
    assert!(scan.file_hashes64.is_empty());
    assert!(scan.references.is_empty());
}

#[test]
fn value_outside_the_identifier_range_is_no_match() {
    let context = context_of(&[0xAABB_CCDD], &[], &[]);
    let mut data = vec![0u8; 32];
    put32(&mut data, 16, 0xAABB_CCDD);
    let scan = scan_file(&context, &data);
    assert_eq!(scan, ScanResult::default());
}

#[test]
fn identifier_unknown_to_the_context_is_no_match() {
    let context = context_of(&[0x80A0_0124], &[], &[]);
    let mut data = vec![0u8; 8];
    put32(&mut data, 4, 0x80A0_0123);
    let scan = scan_file(&context, &data);
    assert!(scan.file_hashes.is_empty());
}

#[test]
fn package_index_bounds_limit_identifier_matches() {
    let below: u32 = 0x8081_1FFF;
    let lowest: u32 = 0x8081_2000;
    let highest: u32 = 0x81BF_FFFF;
    let above: u32 = 0x81C0_0000;
    let context = context_of(&[below, lowest, highest, above], &[], &[]);
    let mut data = vec![0u8; 16];
    put32(&mut data, 0, below);
    put32(&mut data, 4, lowest);
    put32(&mut data, 8, highest);
    put32(&mut data, 12, above);
    let scan = scan_file(&context, &data);
    assert_eq!(
        scan.file_hashes,
        vec![
            ScannedHash {
                offset: 4,
                hash: lowest
            },
            ScannedHash {
                offset: 8,
                hash: highest
            },
        ]
    );
}

#[test]
fn empty_string_hash_matches_without_a_known_set() {
    let context = context_of(&[], &[], &[]);
    let mut data = vec![0u8; 12];
    put32(&mut data, 8, 0x811c_9dc5);
    let scan = scan_file(&context, &data);
    assert_eq!(EMPTY_STRING_HASH, 0x811c_9dc5);
    assert_eq!(
        scan.string_hashes,
        vec![ScannedHash {
            offset: 8,
            hash: 0x811c_9dc5
        }]
    );
    assert!(scan.file_hashes.is_empty());
}

#[test]
fn known_string_hash_matches() {
    let context = context_of(&[], &[], &[0x1234_5678]);
    let mut data = vec![0u8; 8];
    put32(&mut data, 0, 0x1234_5678);
    put32(&mut data, 4, 0x1234_5679);
    let scan = scan_file(&context, &data);
    assert_eq!(
        scan.string_hashes,
        vec![ScannedHash {
            offset: 0,
            hash: 0x1234_5678
        }]
    );
}

#[test]
fn one_window_can_match_as_identifier_and_as_string_hash() {
    let context = context_of(&[EMPTY_STRING_HASH], &[], &[]);
    let mut data = vec![0u8; 4];
    put32(&mut data, 0, EMPTY_STRING_HASH);
    let scan = scan_file(&context, &data);
    let expected = vec![ScannedHash {
        offset: 0,
        hash: EMPTY_STRING_HASH,
    }];
    assert_eq!(scan.file_hashes, expected);
    assert_eq!(scan.string_hashes, expected);
}

#[test]
fn extended_identifier_matches_on_eight_byte_windows_only() {
    let wide: u64 = 0x0102_0304_0506_0708;
    let context = context_of(&[], &[wide], &[]);
    let mut data = vec![0u8; 32];
    put64(&mut data, 8, wide);
    put64(&mut data, 20, wide);
    let scan = scan_file(&context, &data);
    assert_eq!(
        scan.file_hashes64,
        vec![ScannedHash {
            offset: 8,
            hash: wide
        }]
    );
}

#[test]
fn identifier_off_the_four_byte_grid_is_no_match() {
    let tag: u32 = 0x80A0_0123;
    let context = context_of(&[tag], &[], &[]);
    let mut data = vec![0u8; 16];
    put32(&mut data, 6, tag);
    let scan = scan_file(&context, &data);
    assert!(scan.file_hashes.is_empty());
}

#[test]
fn matches_come_in_ascending_offset_order() {
    let first: u32 = 0x80A0_0001;
    let second: u32 = 0x80A0_0002;
    let context = context_of(&[first, second], &[], &[]);
    let mut data = vec![0u8; 24];
    put32(&mut data, 20, first);
    put32(&mut data, 4, second);
    put32(&mut data, 12, first);
    let scan = scan_file(&context, &data);
    assert_eq!(
        scan.file_hashes,
        vec![
            ScannedHash {
                offset: 4,
                hash: second
            },
            ScannedHash {
                offset: 12,
                hash: first
            },
            ScannedHash {
                offset: 20,
                hash: first
            },
        ]
    );
}

#[test]
fn words_are_read_little_endian() {
    let context = context_of(&[0x80A0_0123], &[0x8877_6655_4433_2211], &[]);
    let data: Vec<u8> = vec![0x11, 0x22, 0x33, 0x44, 0x55, 0x66, 0x77, 0x88, 0x23, 0x01, 0xA0, 0x80];
    let scan = scan_file(&context, &data);
    assert_eq!(
        scan.file_hashes,
        vec![ScannedHash {
            offset: 8,
            hash: 0x80A0_0123
        }]
    );
    assert_eq!(
        scan.file_hashes64,
        vec![ScannedHash {
            offset: 0,
            hash: 0x8877_6655_4433_2211
        }]
    );
}

#[test]
fn trailing_bytes_are_ignored() {
    let tag: u32 = 0x80A0_0123;
    let wide: u64 = 0x0102_0304_0506_0708;
    let context = context_of(&[tag], &[wide], &[]);
    for len in 0usize..24 {
        let mut data = vec![0u8; len];
        let tag_bytes = tag.to_le_bytes();
        let wide_bytes = wide.to_le_bytes();
        // Fill the tail behind the last complete window with a prefix of a match.
        let tail32 = len - len % 4;
        for k in tail32..len {
            data[k] = tag_bytes[k - tail32];
        }
        let scan = scan_file(&context, &data);
        assert!(scan.file_hashes.is_empty());
        let mut data = vec![0u8; len];
        let tail64 = len - len % 8;
        for k in tail64..len {
            data[k] = wide_bytes[k - tail64];
        }
        let scan = scan_file(&context, &data);
        assert!(scan.file_hashes64.is_empty());
    }
}

#[test]
fn match_in_the_last_complete_window_of_an_odd_buffer() {
    let tag: u32 = 0x80A0_0123;
    let wide: u64 = 0x0102_0304_0506_0708;
    let context = context_of(&[tag], &[wide], &[]);
    let mut data = vec![0u8; 15];
    put32(&mut data, 8, tag);
    put64(&mut data, 0, wide);
    let scan = scan_file(&context, &data);
    assert_eq!(
        scan.file_hashes,
        vec![ScannedHash {
            offset: 8,
            hash: tag
        }]
    );
    assert_eq!(
        scan.file_hashes64,
        vec![ScannedHash {
            offset: 0,
            hash: wide
        }]
    );
}

#[test]
fn empty_buffer_gives_the_empty_result() {
    let context = context_of(&[0x80A0_0123], &[1], &[2]);
    let scan = scan_file(&context, &[]);
    assert_eq!(scan, ScanResult::default());
}

#[test]
fn scanning_twice_gives_the_same_result() {
    let tag: u32 = 0x80A0_0123;
    let context = context_of(&[tag], &[7], &[9]);
    let mut data = vec![0u8; 64];
    put32(&mut data, 0, tag);
    put32(&mut data, 12, 9);
    put64(&mut data, 24, 7);
    put32(&mut data, 60, EMPTY_STRING_HASH);
    let first = scan_file(&context, &data);
    let second = scan_file(&context, &data);
    assert_eq!(first, second);
    assert_eq!(first.file_hashes.len(), 1);
    assert_eq!(first.string_hashes.len(), 2);
    assert_eq!(first.file_hashes64.len(), 1);
}

#[test]
fn offsets_are_aligned_and_in_bounds() {
    let tag: u32 = 0x80A0_0123;
    let context = context_of(&[tag], &[0x80A0_0123_80A0_0123], &[tag]);
    let mut data = vec![0u8; 101];
    let mut at = 0;
    while at + 4 <= data.len() {
        put32(&mut data, at, tag);
        at += 4;
    }
    let scan = scan_file(&context, &data);
    assert_eq!(scan.file_hashes.len(), 25);
    assert_eq!(scan.string_hashes.len(), 25);
    assert_eq!(scan.file_hashes64.len(), 12);
    for found in &scan.file_hashes {
        assert_eq!(found.offset % 4, 0);
        assert!(found.offset + 4 <= data.len() as u64);
    }
    for found in &scan.string_hashes {
        assert_eq!(found.offset % 4, 0);
        assert!(found.offset + 4 <= data.len() as u64);
    }
    for found in &scan.file_hashes64 {
        assert_eq!(found.offset % 8, 0);
        assert!(found.offset + 8 <= data.len() as u64);
    }
}

#[test]
fn default_scan_result_is_empty() {
    let scan = ScanResult::default();
    assert!(scan.file_hashes.is_empty());
    assert!(scan.file_hashes64.is_empty());
    assert!(scan.string_hashes.is_empty());
    assert!(scan.references.is_empty());
}

#[test]
fn cloned_scan_result_is_equal() {
    let scan = ScanResult {
        file_hashes: vec![ScannedHash {
            offset: 4,
            hash: 0x80A0_0001,
        }],
        file_hashes64: vec![ScannedHash {
            offset: 8,
            hash: 77,
        }],
        string_hashes: vec![ScannedHash {
            offset: 12,
            hash: 5,
        }],
        references: vec![1, 2, 2],
    };
    assert_eq!(scan.clone(), scan);
}

#[test]
fn scanned_array_holds_its_fields() {
    let array = ScannedArray {
        offset: 20,
        count: 3,
        class: 0x8080_9fb8,
    };
    let copy = array;
    assert_eq!(copy, array);
    assert_eq!(copy.offset, 20);
    assert_eq!(copy.count, 3);
    assert_eq!(copy.class, 0x8080_9fb8);
}
