use quicktag::cache::TagCache;
use quicktag::scanner::ScanResult;
use quicktag::scanner::ScannedHash;
use quicktag::transform::apply_references;
use quicktag::transform::gather_references;
use quicktag::transform::transform_tag_cache;
use quicktag::transform::ReferenceLists;
use std::collections::HashMap;

fn scan_with(direct: &[u32], wide: &[u64]) -> ScanResult {
    let mut scan = ScanResult::default();
    for (i, hash) in direct.iter().enumerate() {
        scan.file_hashes.push(ScannedHash {
            offset: 4 * i as u64,
            hash: *hash,
        });
    }
    for (i, hash) in wide.iter().enumerate() {
        scan.file_hashes64.push(ScannedHash {
            offset: 8 * i as u64,
            hash: *hash,
        });
    }
    scan
}

fn sorted(list: &[u32]) -> Vec<u32> {
    let mut out = list.to_vec();
    out.sort();
    out
}

#[test]
fn two_referencers_of_one_entry() {
    let mut cache = TagCache::default();
    cache.insert(1, scan_with(&[2], &[]));
    cache.insert(2, scan_with(&[], &[]));
    cache.insert(3, scan_with(&[2], &[]));
    let out = transform_tag_cache(cache, &HashMap::new());
    assert_eq!(out.len(), 3);
    assert_eq!(sorted(&out[&2].references), vec![1, 3]);
    assert!(out[&1].references.is_empty());
    assert!(out[&3].references.is_empty());
}

#[test]
fn transform_keeps_the_matches() {
    let mut cache = TagCache::default();
    let mut first = scan_with(&[2, 9], &[100]);
    first.string_hashes.push(ScannedHash {
        offset: 12,
        hash: 0x811c_9dc5,
    });
    cache.insert(1, first.clone());
    cache.insert(2, scan_with(&[1], &[]));
    let out = transform_tag_cache(cache, &HashMap::new());
    assert_eq!(out[&1].file_hashes, first.file_hashes);
    assert_eq!(out[&1].file_hashes64, first.file_hashes64);
    assert_eq!(out[&1].string_hashes, first.string_hashes);
    assert_eq!(out[&1].references, vec![2]);
    assert_eq!(out[&2].references, vec![1]);
}

#[test]
fn every_site_counts_once() {
    let mut cache = TagCache::default();
    cache.insert(1, scan_with(&[2, 7, 2, 2], &[]));
    cache.insert(2, scan_with(&[], &[]));
    let out = transform_tag_cache(cache, &HashMap::new());
    assert_eq!(out[&2].references, vec![1, 1, 1]);
}

#[test]
fn extended_identifier_counts_through_the_table() {
    let mut table: HashMap<u64, u32> = HashMap::new();
    table.insert(500, 2);
    table.insert(501, 3);
    let mut cache = TagCache::default();
    cache.insert(1, scan_with(&[], &[500, 501, 500]));
    cache.insert(2, scan_with(&[], &[]));
    cache.insert(3, scan_with(&[2], &[]));
    let out = transform_tag_cache(cache, &table);
    assert_eq!(sorted(&out[&2].references), vec![1, 1, 3]);
    assert_eq!(out[&3].references, vec![1]);
}

#[test]
fn unresolved_extended_identifier_is_dropped() {
    let mut table: HashMap<u64, u32> = HashMap::new();
    table.insert(500, 2);
    let mut cache = TagCache::default();
    cache.insert(1, scan_with(&[], &[499, 501]));
    cache.insert(2, scan_with(&[], &[]));
    let out = transform_tag_cache(cache, &table);
    assert!(out[&1].references.is_empty());
    assert!(out[&2].references.is_empty());
}

#[test]
fn entry_can_refer_to_itself() {
    let mut cache = TagCache::default();
    cache.insert(1, scan_with(&[1], &[]));
    let out = transform_tag_cache(cache, &HashMap::new());
    assert_eq!(out[&1].references, vec![1]);
}

#[test]
fn reference_to_an_entry_outside_the_cache_adds_no_entry() {
    let mut cache = TagCache::default();
    cache.insert(1, scan_with(&[42], &[]));
    let out = transform_tag_cache(cache, &HashMap::new());
    assert_eq!(out.len(), 1);
    assert!(out[&1].references.is_empty());
}

#[test]
fn unreferenced_entry_keeps_its_references() {
    let mut cache = TagCache::default();
    let mut stale = scan_with(&[], &[]);
    stale.references = vec![8, 9];
    cache.insert(1, stale);
    let mut replaced = scan_with(&[], &[]);
    replaced.references = vec![8, 9];
    cache.insert(2, replaced);
    cache.insert(3, scan_with(&[2], &[]));
    let out = transform_tag_cache(cache, &HashMap::new());
    assert_eq!(out[&1].references, vec![8, 9]);
    assert_eq!(out[&2].references, vec![3]);
}

#[test]
fn transform_of_an_empty_cache_is_empty() {
    let out = transform_tag_cache(TagCache::default(), &HashMap::new());
    assert!(out.is_empty());
}

#[test]
fn gathered_lists_are_keyed_by_target() {
    let mut table: HashMap<u64, u32> = HashMap::new();
    table.insert(500, 7);
    let mut cache = TagCache::default();
    cache.insert(1, scan_with(&[2, 42], &[500]));
    cache.insert(3, scan_with(&[2], &[]));
    let refs = gather_references(&cache, &table);
    assert_eq!(refs.len(), 3);
    assert_eq!(sorted(&refs[&2]), vec![1, 3]);
    assert_eq!(refs[&42], vec![1]);
    assert_eq!(refs[&7], vec![1]);
}

#[test]
fn gathering_from_matchless_entries_gives_no_lists() {
    let mut cache = TagCache::default();
    cache.insert(1, scan_with(&[], &[]));
    cache.insert(2, scan_with(&[], &[600]));
    let refs = gather_references(&cache, &HashMap::new());
    assert!(refs.is_empty());
}

#[test]
fn applied_lists_replace_references_of_their_entries_only() {
    let mut cache = TagCache::default();
    let mut first = scan_with(&[5], &[]);
    first.references = vec![100];
    cache.insert(1, first);
    let mut second = scan_with(&[], &[6]);
    second.references = vec![200];
    cache.insert(2, second);
    let mut refs = ReferenceLists::default();
    refs.insert(1, vec![9, 9, 8]);
    refs.insert(77, vec![1]);
    let out = apply_references(cache, refs);
    assert_eq!(out.len(), 2);
    assert_eq!(out[&1].references, vec![9, 9, 8]);
    assert_eq!(out[&1].file_hashes, scan_with(&[5], &[]).file_hashes);
    assert_eq!(out[&2].references, vec![200]);
    assert_eq!(out[&2].file_hashes64, scan_with(&[], &[6]).file_hashes64);
}

#[test]
fn listed_exactly_when_the_referencer_names_the_entry() {
    let mut table: HashMap<u64, u32> = HashMap::new();
    table.insert(900, 4);
    let mut cache = TagCache::default();
    cache.insert(1, scan_with(&[2, 3], &[]));
    cache.insert(2, scan_with(&[3], &[900]));
    cache.insert(3, scan_with(&[], &[]));
    cache.insert(4, scan_with(&[1], &[]));
    let forward: Vec<(u32, Vec<u32>)> = vec![(1, vec![2, 3]), (2, vec![3, 4]), (3, vec![]), (4, vec![1])];
    let out = transform_tag_cache(cache, &table);
    for (referencer, targets) in &forward {
        for target in 1u32..=4 {
            assert_eq!(
                out[&target].references.contains(referencer),
                targets.contains(&target)
            );
        }
    }
}
