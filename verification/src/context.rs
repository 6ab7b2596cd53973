//! The scanner context: the sets of values that a scan accepts as real
//! references, and how they are derived from the index of a package set.

use crate::scanner::ScannedHash;
use crate::scanner::EMPTY_STRING_HASH;
use crate::tables::set_insert;
use crate::tag::entry_tag;
use crate::tag::spec_entry_tag;
use crate::tag::spec_is_pkg_file;
use nohash_hasher::IntSet;
use std::collections::HashMap;
use vstd::prelude::*;
use vstd::std_specs::hash::group_hash_axioms;

verus! {

/// The sets of values that count as real references. Shared read-only by
/// every scan of one cache build.
pub struct ScannerContext {
    /// The identifier of every entry that exists.
    pub valid_file_hashes: IntSet<u32>,
    /// Every extended identifier that resolves to an entry.
    pub valid_file_hashes64: IntSet<u64>,
    /// The string hashes to look for, besides the hash of the empty string.
    pub known_string_hashes: IntSet<u32>,
}

/// The mathematical content of a [`ScannerContext`].
pub struct HashUniverse {
    pub files: Set<u32>,
    pub files64: Set<u64>,
    pub strings: Set<u32>,
}

impl View for ScannerContext {
    type V = HashUniverse;

    open spec fn view(&self) -> HashUniverse {
        HashUniverse {
            files: self.valid_file_hashes@,
            files64: self.valid_file_hashes64@,
            strings: self.known_string_hashes@,
        }
    }
}

impl HashUniverse {
    /// A 32-bit value is an identifier match when it is shaped like an entry
    /// identifier and names an entry that exists.
    pub open spec fn is_file(self, value: u32) -> bool {
        spec_is_pkg_file(value) && self.files.contains(value)
    }

    /// A 32-bit value is a string-hash match when it is the hash of the empty
    /// string or a known string hash.
    pub open spec fn is_string(self, value: u32) -> bool {
        value == EMPTY_STRING_HASH || self.strings.contains(value)
    }

    /// A 64-bit value is a match when it is a known extended identifier.
    pub open spec fn is_file64(self, value: u64) -> bool {
        self.files64.contains(value)
    }

    /// Selects the windows that are identifier matches.
    pub open spec fn file_filter(self) -> spec_fn(ScannedHash<u32>) -> bool {
        |w: ScannedHash<u32>| self.is_file(w.hash)
    }

    /// Selects the windows that are string-hash matches.
    pub open spec fn string_filter(self) -> spec_fn(ScannedHash<u32>) -> bool {
        |w: ScannedHash<u32>| self.is_string(w.hash)
    }

    /// Selects the windows that are extended-identifier matches.
    pub open spec fn file64_filter(self) -> spec_fn(ScannedHash<u64>) -> bool {
        |w: ScannedHash<u64>| self.is_file64(w.hash)
    }
}

/// One package of the set: its index and the number of entries it holds.
#[derive(Clone, Copy, Debug, PartialEq, Eq)]
pub struct PackageEntries {
    pub pkg_id: u16,
    pub entry_count: usize,
}

/// What is known of a package set before any entry is read: the packages with
/// their entry counts, and the table that resolves each extended identifier
/// to the identifier of the entry it names.
pub struct PackageIndex {
    pub packages: Vec<PackageEntries>,
    pub hash64_table: HashMap<u64, u32>,
}

/// The identifiers of the first `count` entries of package `pkg_id`.
pub open spec fn package_tags(pkg_id: u16, count: int) -> Set<u32> {
    Set::new(|tag: u32| exists|e: int| 0 <= e < count && tag == #[trigger] spec_entry_tag(pkg_id, e))
}

/// The identifiers of all entries of all the packages listed.
pub open spec fn index_tags(packages: Seq<PackageEntries>) -> Set<u32> {
    Set::new(
        |tag: u32|
            exists|i: int|
                0 <= i < packages.len() && #[trigger] package_tags(
                    packages[i].pkg_id,
                    packages[i].entry_count as int,
                ).contains(tag),
    )
}

/// The universe that a package index gives rise to: every entry identifier,
/// every extended identifier that the table resolves, and no string hashes.
pub open spec fn index_universe(packages: Seq<PackageEntries>, table: Map<u64, u32>) -> HashUniverse {
    HashUniverse { files: index_tags(packages), files64: table.dom(), strings: Set::empty() }
}

/// Builds the context for a cache build from the index of the package set:
/// the identifier of every entry position of every package, the keys of the
/// resolution table, and an empty set of known string hashes.
pub fn create_scanner_context(index: &PackageIndex) -> (context: ScannerContext)
    ensures
        context@ == index_universe(index.packages@, index.hash64_table@),
{
    broadcast use group_hash_axioms;

    let mut valid_file_hashes: IntSet<u32> = IntSet::default();
    let mut p: usize = 0;
    while p < index.packages.len()
        invariant
            p <= index.packages@.len(),
            valid_file_hashes@ == index_tags(index.packages@.take(p as int)),
        decreases index.packages@.len() - p,
    {
        let package = index.packages[p];
        let ghost before = valid_file_hashes@;
        let mut e: usize = 0;
        while e < package.entry_count
            invariant
                e <= package.entry_count,
                valid_file_hashes@ == before.union(package_tags(package.pkg_id, e as int)),
            decreases package.entry_count - e,
        {
            let tag: u32 = entry_tag(package.pkg_id, e);
            set_insert(&mut valid_file_hashes, tag);
            assert(package_tags(package.pkg_id, e + 1) =~= package_tags(
                package.pkg_id,
                e as int,
            ).insert(tag)) by {
                assert(tag == spec_entry_tag(package.pkg_id, e as int));
            }
            assert(valid_file_hashes@ =~= before.union(package_tags(package.pkg_id, e + 1)));
            e += 1;
        }
        proof {
            let done = index.packages@.take(p as int);
            let next = index.packages@.take(p + 1);
            assert forall|tag: u32| index_tags(next).contains(tag) <==> before.union(
                package_tags(package.pkg_id, package.entry_count as int),
            ).contains(tag) by {
                if index_tags(next).contains(tag) {
                    let i = choose|i: int|
                        0 <= i < next.len() && #[trigger] package_tags(
                            next[i].pkg_id,
                            next[i].entry_count as int,
                        ).contains(tag);
                    if i < p {
                        assert(package_tags(done[i].pkg_id, done[i].entry_count as int).contains(tag));
                    }
                }
                if before.contains(tag) {
                    let i = choose|i: int|
                        0 <= i < done.len() && #[trigger] package_tags(
                            done[i].pkg_id,
                            done[i].entry_count as int,
                        ).contains(tag);
                    assert(package_tags(next[i].pkg_id, next[i].entry_count as int).contains(tag));
                }
                if package_tags(package.pkg_id, package.entry_count as int).contains(tag) {
                    assert(package_tags(
                        next[p as int].pkg_id,
                        next[p as int].entry_count as int,
                    ).contains(tag));
                }
            }
            assert(valid_file_hashes@ =~= index_tags(next));
        }
        p += 1;
    }
    assert(index.packages@.take(p as int) =~= index.packages@);

    let mut valid_file_hashes64: IntSet<u64> = IntSet::default();
    for key in it: index.hash64_table.keys()
        invariant
            it.seq().unref().to_set() == index.hash64_table@.dom(),
            valid_file_hashes64@ == it.seq().unref().take(it.index()).to_set(),
            it.index() == it.seq().len() ==> valid_file_hashes64@ == index.hash64_table@.dom(),
    {
        proof {
            let keys = it.seq().unref();
            let i = it.index();
            assert(keys.take(i + 1) =~= keys.take(i).push(keys[i]));
            keys.take(i).lemma_push_to_set_commute(keys[i]);
            assert(keys.take(keys.len() as int) =~= keys);
        }
        set_insert(&mut valid_file_hashes64, *key);
    }

    ScannerContext {
        valid_file_hashes,
        valid_file_hashes64,
        known_string_hashes: IntSet::default(),
    }
}

/// The universe of an index holds the identifier of every entry position of
/// every package it lists.
pub proof fn lemma_index_holds_entries(packages: Seq<PackageEntries>, i: int, position: int)
    requires
        0 <= i < packages.len(),
        0 <= position < packages[i].entry_count,
    ensures
        index_tags(packages).contains(spec_entry_tag(packages[i].pkg_id, position)),
{
    assert(package_tags(packages[i].pkg_id, packages[i].entry_count as int).contains(
        spec_entry_tag(packages[i].pkg_id, position),
    ));
}

} // verus!
