//! The steps of the package walk: which entries of a package are scanned, in
//! what order, and how the scan of each is recorded.

use crate::cache::absorb;
use crate::cache::contents;
use crate::cache::lemma_merged_domain;
use crate::cache::lemma_merged_keeps_disjoint;
use crate::cache::merged;
use crate::cache::TagCache;
use crate::context::HashUniverse;
use crate::context::ScannerContext;
use crate::scanner::scan_file;
use crate::scanner::scan_spec;
use crate::scanner::ScanResultView;
use crate::tables::map_insert;
use crate::tag::entry_tag;
use crate::tag::lemma_entry_tags_of_one_package;
use crate::tag::spec_entry_tag;
use crate::tag::spec_pkg_id;
use crate::tag::TAG_BASE;
use vstd::prelude::*;
use vstd::set_lib::lemma_set_disjoint_lens;
use vstd::std_specs::hash::group_hash_axioms;

verus! {

/// The first of the two entry types whose entries are scanned.
pub const TAG_ENTRY_TYPE: u8 = 8;

/// The second of the two entry types whose entries are scanned.
pub const TAG_GLOBAL_ENTRY_TYPE: u8 = 16;

/// Whether entries of this type are scanned.
pub fn is_scanned_type(entry_type: u8) -> (scanned: bool)
    ensures
        scanned == (entry_type == TAG_ENTRY_TYPE || entry_type == TAG_GLOBAL_ENTRY_TYPE),
{
    entry_type == TAG_ENTRY_TYPE || entry_type == TAG_GLOBAL_ENTRY_TYPE
}

/// What became of one entry of the walk.
#[derive(Clone, Copy, Debug, PartialEq, Eq, Structural)]
pub enum EntryOutcome {
    /// The entry was read and scanned; its result is in the cache under this
    /// identifier.
    Scanned(u32),
    /// The entry could not be read and is not in the cache.
    Skipped,
}

/// Whether a list of entry indices ascends.
pub open spec fn ascending(list: Seq<usize>) -> bool {
    forall|i: int, j: int| 0 <= i <= j < list.len() ==> list[i] <= list[j]
}

/// `slice::sort` on a vector of entry indices. Trusted: afterwards the
/// vector holds the same indices as before, each as often as before, in
/// ascending order.
#[verifier::external_body]
fn sort_indices(list: &mut Vec<usize>)
    ensures
        final(list)@.to_multiset() == old(list)@.to_multiset(),
        ascending(final(list)@),
{
    list.sort();
}

/// The order in which the entries of a package are read: the entries of both
/// scanned types together, by ascending entry index, so that a package is
/// read front to back.
pub fn entry_scan_order(first: &[usize], second: &[usize]) -> (order: Vec<usize>)
    ensures
        order@.to_multiset() == (first@ + second@).to_multiset(),
        ascending(order@),
{
    let mut order: Vec<usize> = Vec::new();
    let mut i: usize = 0;
    while i < first.len()
        invariant
            i <= first@.len(),
            order@ == first@.take(i as int),
        decreases first@.len() - i,
    {
        order.push(first[i]);
        assert(order@ =~= first@.take(i + 1));
        i += 1;
    }
    assert(first@.take(i as int) =~= first@);
    let mut j: usize = 0;
    while j < second.len()
        invariant
            j <= second@.len(),
            order@ == first@ + second@.take(j as int),
        decreases second@.len() - j,
    {
        order.push(second[j]);
        assert(order@ =~= first@ + second@.take(j + 1));
        j += 1;
    }
    assert(second@.take(j as int) =~= second@);
    sort_indices(&mut order);
    order
}

/// Records one entry of package `pkg_id`: where its bytes were read, they are
/// scanned and the result is put into `results` under the identifier of the
/// entry; where they were not (`data` is `None`), the entry is left out and
/// the walk goes on.
pub fn record_entry(
    results: &mut TagCache,
    context: &ScannerContext,
    pkg_id: u16,
    index: usize,
    data: Option<&[u8]>,
) -> (outcome: EntryOutcome)
    ensures
        match data {
            Some(bytes) => {
                &&& outcome == EntryOutcome::Scanned(spec_entry_tag(pkg_id, index as int))
                &&& contents(final(results)@) == contents(old(results)@).insert(
                    spec_entry_tag(pkg_id, index as int),
                    scan_spec(context@, bytes@),
                )
            },
            None => outcome == EntryOutcome::Skipped && final(results)@ == old(results)@,
        },
{
    broadcast use group_hash_axioms;

    match data {
        Some(bytes) => {
            let tag: u32 = entry_tag(pkg_id, index);
            let scan = scan_file(context, bytes);
            map_insert(results, tag, scan);
            assert(contents(results@) =~= contents(old(results)@).insert(
                tag,
                scan_spec(context@, bytes@),
            ));
            EntryOutcome::Scanned(tag)
        },
        None => EntryOutcome::Skipped,
    }
}

/// One entry of a package as the walk meets it: its position in the package,
/// and its bytes, or `None` where they could not be read.
#[derive(Clone, Debug, PartialEq, Eq)]
pub struct EntryRead {
    pub index: usize,
    pub data: Option<Vec<u8>>,
}

/// What the walk of one package records: every entry that was read, scanned
/// and put under its identifier in the order of the walk, a later entry
/// replacing an earlier one with the same identifier; an entry that could not
/// be read is left out.
pub open spec fn package_scan(universe: HashUniverse, pkg_id: u16, entries: Seq<EntryRead>) -> Map<
    u32,
    ScanResultView,
>
    decreases entries.len(),
{
    if entries.len() == 0 {
        Map::empty()
    } else {
        let before = package_scan(universe, pkg_id, entries.drop_last());
        match entries.last().data {
            Some(bytes) => before.insert(
                spec_entry_tag(pkg_id, entries.last().index as int),
                scan_spec(universe, bytes@),
            ),
            None => before,
        }
    }
}

/// One package as the walk meets it: its index and its entries of the scanned
/// types in the order in which they were read.
#[derive(Clone, Debug, PartialEq, Eq)]
pub struct PackageRead {
    pub pkg_id: u16,
    pub entries: Vec<EntryRead>,
}

/// What the walk of a package set records for each package.
pub open spec fn walk_scan(universe: HashUniverse, packages: Seq<PackageRead>) -> Seq<
    Map<u32, ScanResultView>,
> {
    Seq::new(
        packages.len(),
        |a: int| package_scan(universe, packages[a].pkg_id, packages[a].entries@),
    )
}

/// Whether no package index comes twice in the list.
pub open spec fn distinct_packages(packages: Seq<PackageRead>) -> bool {
    forall|a: int, b: int|
        0 <= a < b < packages.len() ==> (#[trigger] packages[a]).pkg_id != (
        #[trigger] packages[b]).pkg_id
}

/// Whether entry `k` of the list was read and no entry behind it that was
/// read has its identifier, so that its scan is the one that stays.
pub open spec fn stays(entries: Seq<EntryRead>, k: int) -> bool {
    &&& 0 <= k < entries.len()
    &&& entries[k].data is Some
    &&& forall|j: int|
        k < j < entries.len() && (#[trigger] entries[j]).data is Some ==> entries[j].index % 8192
            != entries[k].index % 8192
}

/// Walks the entries of package `pkg_id` in the order given: each one that
/// was read is scanned and recorded under its identifier, each one that was
/// not is skipped.
pub fn scan_package(context: &ScannerContext, pkg_id: u16, entries: &Vec<EntryRead>) -> (results:
    TagCache)
    ensures
        contents(results@) == package_scan(context@, pkg_id, entries@),
{
    let mut results = TagCache::default();
    assert(contents(results@) =~= package_scan(context@, pkg_id, entries@.take(0)));
    let mut i: usize = 0;
    while i < entries.len()
        invariant
            i <= entries@.len(),
            contents(results@) == package_scan(context@, pkg_id, entries@.take(i as int)),
        decreases entries@.len() - i,
    {
        let entry = &entries[i];
        let data: Option<&[u8]> = match &entry.data {
            Some(bytes) => Some(bytes.as_slice()),
            None => None,
        };
        record_entry(&mut results, context, pkg_id, entry.index, data);
        proof {
            assert(entries@.take(i + 1).drop_last() =~= entries@.take(i as int));
            assert(entries@.take(i + 1).last() == entries@[i as int]);
        }
        i += 1;
    }
    assert(entries@.take(i as int) =~= entries@);
    results
}

/// Every key that the walk of a package records is the identifier of one of
/// its entries that was read, and so carries the index of the package.
pub proof fn lemma_package_scan_keys(
    universe: HashUniverse,
    pkg_id: u16,
    entries: Seq<EntryRead>,
    tag: u32,
)
    requires
        package_scan(universe, pkg_id, entries).contains_key(tag),
    ensures
        exists|k: int|
            0 <= k < entries.len() && (#[trigger] entries[k]).data is Some && tag
                == spec_entry_tag(pkg_id, entries[k].index as int),
        tag >= TAG_BASE,
        spec_pkg_id(tag) == pkg_id,
    decreases entries.len(),
{
    if entries.len() > 0 {
        let front = entries.drop_last();
        let last = entries.last();
        if last.data is Some && tag == spec_entry_tag(pkg_id, last.index as int) {
            assert(entries[entries.len() - 1].data is Some);
        } else {
            lemma_package_scan_keys(universe, pkg_id, front, tag);
            let k = choose|k: int|
                0 <= k < front.len() && (#[trigger] front[k]).data is Some && tag == spec_entry_tag(
                    pkg_id,
                    front[k].index as int,
                );
            assert(entries[k].data is Some);
        }
    }
}

/// The walk of a package holds, for every entry that stays, the scan of that
/// entry under its identifier.
pub proof fn lemma_package_scan_holds(
    universe: HashUniverse,
    pkg_id: u16,
    entries: Seq<EntryRead>,
    k: int,
)
    requires
        stays(entries, k),
    ensures
        package_scan(universe, pkg_id, entries).contains_key(
            spec_entry_tag(pkg_id, entries[k].index as int),
        ),
        package_scan(universe, pkg_id, entries)[spec_entry_tag(pkg_id, entries[k].index as int)]
            == scan_spec(universe, entries[k].data->0@),
    decreases entries.len(),
{
    let last = entries.len() - 1;
    if k < last {
        let front = entries.drop_last();
        assert forall|j: int| k < j < front.len() && (#[trigger] front[j]).data is Some implies front[j].index
            % 8192 != front[k].index % 8192 by {
            assert(entries[j].data is Some);
        }
        lemma_package_scan_holds(universe, pkg_id, front, k);
        if entries[last].data is Some {
            lemma_entry_tags_of_one_package(
                pkg_id,
                entries[last].index as int,
                entries[k].index as int,
            );
        }
    }
}

/// Walks a package set: every package is walked by itself and the results
/// are merged, a later package deciding where two hold the same identifier.
pub fn walk_packages(context: &ScannerContext, packages: &Vec<PackageRead>) -> (cache: TagCache)
    ensures
        contents(cache@) == merged(walk_scan(context@, packages@)),
{
    let mut cache = TagCache::default();
    assert(contents(cache@) =~= merged(walk_scan(context@, packages@.take(0))));
    let mut i: usize = 0;
    while i < packages.len()
        invariant
            i <= packages@.len(),
            contents(cache@) == merged(walk_scan(context@, packages@.take(i as int))),
        decreases packages@.len() - i,
    {
        let package = &packages[i];
        let part = scan_package(context, package.pkg_id, &package.entries);
        absorb(&mut cache, part);
        proof {
            let next = walk_scan(context@, packages@.take(i + 1));
            assert(next.drop_last() =~= walk_scan(context@, packages@.take(i as int)));
            assert(next.last() == package_scan(context@, package.pkg_id, package.entries@));
        }
        i += 1;
    }
    assert(packages@.take(i as int) =~= packages@);
    cache
}

/// Packages do not overwrite each other. Where no package index comes twice,
/// the walk of a package set holds, for every entry of every package that
/// stays in its own package, the scan of that entry under its identifier,
/// whatever positions the entries of the other packages have.
pub proof fn lemma_walk_keeps_entries(
    universe: HashUniverse,
    packages: Seq<PackageRead>,
    a: int,
    k: int,
)
    requires
        distinct_packages(packages),
        0 <= a < packages.len(),
        stays(packages[a].entries@, k),
    ensures
        merged(walk_scan(universe, packages)).contains_key(
            spec_entry_tag(packages[a].pkg_id, packages[a].entries@[k].index as int),
        ),
        merged(walk_scan(universe, packages))[spec_entry_tag(
            packages[a].pkg_id,
            packages[a].entries@[k].index as int,
        )] == scan_spec(universe, packages[a].entries@[k].data->0@),
{
    let parts = walk_scan(universe, packages);
    let pkg_ids = Seq::new(packages.len(), |b: int| packages[b].pkg_id);
    let tag = spec_entry_tag(packages[a].pkg_id, packages[a].entries@[k].index as int);
    lemma_package_scan_holds(universe, packages[a].pkg_id, packages[a].entries@, k);
    assert forall|b: int, t: u32| 0 <= b < parts.len() && #[trigger] parts[b].contains_key(t) implies t
        >= TAG_BASE && spec_pkg_id(t) == pkg_ids[b] by {
        lemma_package_scan_keys(universe, packages[b].pkg_id, packages[b].entries@, t);
    }
    assert(pkg_ids.no_duplicates()) by {
        assert forall|x: int, y: int| 0 <= x < pkg_ids.len() && 0 <= y < pkg_ids.len() && x
            != y implies pkg_ids[x] != pkg_ids[y] by {
            if x < y {
                assert(packages[x].pkg_id != packages[y].pkg_id);
            } else {
                assert(packages[y].pkg_id != packages[x].pkg_id);
            }
        }
    }
    lemma_packages_merge_intact(parts, pkg_ids, a, tag);
}

/// The number of entries of the list that were read.
pub open spec fn read_count(entries: Seq<EntryRead>) -> nat
    decreases entries.len(),
{
    if entries.len() == 0 {
        0
    } else {
        read_count(entries.drop_last()) + if entries.last().data is Some {
            1nat
        } else {
            0nat
        }
    }
}

/// The number of entries of all the packages that were read.
pub open spec fn walk_read_count(packages: Seq<PackageRead>) -> nat
    decreases packages.len(),
{
    if packages.len() == 0 {
        0
    } else {
        walk_read_count(packages.drop_last()) + read_count(packages.last().entries@)
    }
}

/// Whether every entry of the list that was read stays: no two of them have
/// the same identifier.
pub open spec fn all_stay(entries: Seq<EntryRead>) -> bool {
    forall|k: int| 0 <= k < entries.len() && (#[trigger] entries[k]).data is Some ==> stays(entries, k)
}

/// Where no two entries that were read share an identifier, the walk of a
/// package records as many entries as were read.
pub proof fn lemma_package_scan_count(universe: HashUniverse, pkg_id: u16, entries: Seq<EntryRead>)
    requires
        all_stay(entries),
    ensures
        package_scan(universe, pkg_id, entries).dom().finite(),
        package_scan(universe, pkg_id, entries).dom().len() == read_count(entries),
    decreases entries.len(),
{
    if entries.len() > 0 {
        let front = entries.drop_last();
        let last = entries.len() - 1;
        assert forall|k: int| 0 <= k < front.len() && (#[trigger] front[k]).data is Some implies stays(
            front,
            k,
        ) by {
            assert(entries[k].data is Some);
            assert(stays(entries, k));
            assert forall|j: int| k < j < front.len() && (#[trigger] front[j]).data is Some implies front[j].index
                % 8192 != front[k].index % 8192 by {
                assert(entries[j].data is Some);
            }
        }
        lemma_package_scan_count(universe, pkg_id, front);
        if entries[last].data is Some {
            let tag = spec_entry_tag(pkg_id, entries[last].index as int);
            let before = package_scan(universe, pkg_id, front);
            if before.contains_key(tag) {
                lemma_package_scan_keys(universe, pkg_id, front, tag);
                let k = choose|k: int|
                    0 <= k < front.len() && (#[trigger] front[k]).data is Some && tag
                        == spec_entry_tag(pkg_id, front[k].index as int);
                lemma_entry_tags_of_one_package(
                    pkg_id,
                    entries[last].index as int,
                    front[k].index as int,
                );
                assert(entries[k].data is Some);
                assert(stays(entries, k));
                assert(false);
            }
            assert(package_scan(universe, pkg_id, entries).dom() =~= before.dom().insert(tag));
        }
    } else {
        assert(package_scan(universe, pkg_id, entries).dom() =~= Set::<u32>::empty());
    }
}

/// Where no package index comes twice and no two entries of a package that
/// were read share an identifier, the walk of a package set records as many
/// entries as were read over all packages.
pub proof fn lemma_walk_count(universe: HashUniverse, packages: Seq<PackageRead>)
    requires
        distinct_packages(packages),
        forall|a: int| 0 <= a < packages.len() ==> all_stay((#[trigger] packages[a]).entries@),
    ensures
        merged(walk_scan(universe, packages)).dom().finite(),
        merged(walk_scan(universe, packages)).dom().len() == walk_read_count(packages),
    decreases packages.len(),
{
    let parts = walk_scan(universe, packages);
    if packages.len() > 0 {
        let front = packages.drop_last();
        let last = packages.last();
        assert(parts.drop_last() =~= walk_scan(universe, front));
        assert(distinct_packages(front)) by {
            assert forall|a: int, b: int| 0 <= a < b < front.len() implies (#[trigger] front[a]).pkg_id
                != (#[trigger] front[b]).pkg_id by {
                assert(packages[a].pkg_id != packages[b].pkg_id);
            }
        }
        assert forall|a: int| 0 <= a < front.len() implies all_stay((#[trigger] front[a]).entries@) by {
            assert(all_stay(packages[a].entries@));
        }
        lemma_walk_count(universe, front);
        assert(all_stay(packages[packages.len() - 1].entries@));
        lemma_package_scan_count(universe, last.pkg_id, last.entries@);
        let earlier = merged(walk_scan(universe, front)).dom();
        let added = parts.last().dom();
        assert(earlier.disjoint(added)) by {
            assert forall|t: u32| earlier.contains(t) implies !added.contains(t) by {
                if added.contains(t) {
                    lemma_package_scan_keys(universe, last.pkg_id, last.entries@, t);
                    lemma_merged_domain(walk_scan(universe, front), t);
                    let b = choose|b: int|
                        0 <= b < front.len() && #[trigger] walk_scan(universe, front)[b].contains_key(t);
                    lemma_package_scan_keys(universe, front[b].pkg_id, front[b].entries@, t);
                    assert(packages[b].pkg_id != packages[packages.len() - 1].pkg_id);
                }
            }
        }
        lemma_set_disjoint_lens(earlier, added);
        assert(merged(parts).dom() =~= earlier + added);
    } else {
        assert(merged(parts).dom() =~= Set::<u32>::empty());
    }
}

/// Merging the results of different packages loses nothing. Where every key
/// of each part is an identifier of that part's package and no package comes
/// twice, every entry of every part is in the union as it was recorded.
pub proof fn lemma_packages_merge_intact(
    parts: Seq<Map<u32, ScanResultView>>,
    pkg_ids: Seq<u16>,
    i: int,
    tag: u32,
)
    requires
        parts.len() == pkg_ids.len(),
        pkg_ids.no_duplicates(),
        forall|a: int, t: u32|
            0 <= a < parts.len() && #[trigger] parts[a].contains_key(t) ==> t >= TAG_BASE
                && spec_pkg_id(t) == pkg_ids[a],
        0 <= i < parts.len(),
        parts[i].contains_key(tag),
    ensures
        merged(parts).contains_key(tag),
        merged(parts)[tag] == parts[i][tag],
{
    assert forall|a: int, b: int, t: u32|
        0 <= a < b < parts.len() && #[trigger] parts[a].contains_key(t) implies !#[trigger] parts[b].contains_key(
        t,
    ) by {
        if parts[b].contains_key(t) {
            assert(pkg_ids[a] == pkg_ids[b]);
        }
    }
    lemma_merged_keeps_disjoint(parts, i, tag);
}

} // verus!
