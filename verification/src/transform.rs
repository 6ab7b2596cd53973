//! The reference transform: from what every entry refers to, to who refers to
//! every entry.
//!
//! A scan finds references in the forward direction: entry X holds a match
//! for the identifier of Y. The transform records the reverse edge in Y:
//! once for every site in X that names Y, directly or through an extended
//! identifier that the table resolves to Y.

use crate::cache::contents;
use crate::cache::is_flat;
use crate::cache::TagCache;
use crate::scanner::lemma_filter_take_next;
use crate::scanner::ScanResult;
use crate::scanner::ScanResultView;
use crate::scanner::ScannedHash;
use crate::tables::map_get;
use crate::tables::map_insert;
use crate::tables::map_keys;
use crate::tables::map_remove;
use nohash_hasher::IntMap;
use std::collections::HashMap;
use vstd::multiset::Multiset;
use vstd::prelude::*;
use vstd::seq_lib::to_multiset_build;
use vstd::std_specs::hash::group_hash_axioms;

verus! {

/// The identifiers that refer to an entry, by the identifier of that entry.
pub type ReferenceLists = IntMap<u32, Vec<u32>>;

/// Selects the identifier matches that name `target`.
pub open spec fn names(target: u32) -> spec_fn(ScannedHash<u32>) -> bool {
    |found: ScannedHash<u32>| found.hash == target
}

/// Selects the extended-identifier matches that the table resolves to
/// `target`. A match that the table does not resolve names nothing.
pub open spec fn resolves_to(table: Map<u64, u32>, target: u32) -> spec_fn(
    ScannedHash<u64>,
) -> bool {
    |found: ScannedHash<u64>| table.contains_key(found.hash) && table[found.hash] == target
}

/// The number of sites in one scan result that refer to `target`.
pub open spec fn reference_sites(result: ScanResultView, table: Map<u64, u32>, target: u32) -> nat {
    result.file_hashes.filter(names(target)).len() + result.file_hashes64.filter(
        resolves_to(table, target),
    ).len()
}

/// The number of sites in entry `referencer` of the cache that refer to
/// `target`; none if the cache has no such entry.
pub open spec fn references_between(
    cache: Map<u32, ScanResultView>,
    table: Map<u64, u32>,
    referencer: u32,
    target: u32,
) -> nat {
    if cache.contains_key(referencer) {
        reference_sites(cache[referencer], table, target)
    } else {
        0
    }
}

/// Whether any entry of the cache refers to `target`.
pub open spec fn is_referenced(
    cache: Map<u32, ScanResultView>,
    table: Map<u64, u32>,
    target: u32,
) -> bool {
    exists|referencer: u32| references_between(cache, table, referencer, target) > 0
}

/// What reference lists hold: the list of every key as a sequence.
pub open spec fn lists_of(refs: Map<u32, Vec<u32>>) -> Map<u32, Seq<u32>> {
    Map::new(|target: u32| refs.contains_key(target), |target: u32| refs[target]@)
}

/// How often `referencer` occurs in the list of `target`; never, where
/// `target` has no list.
pub open spec fn tally(refs: Map<u32, Seq<u32>>, target: u32, referencer: u32) -> nat {
    if refs.contains_key(target) {
        refs[target].to_multiset().count(referencer)
    } else {
        0
    }
}

/// Whether the lists are the reverse of the cache's forward references: an
/// identifier has a list exactly when some entry refers to it, and the list
/// holds every referencer once for each of its sites. The order inside a
/// list is free.
pub open spec fn gathers(
    refs: Map<u32, Seq<u32>>,
    cache: Map<u32, ScanResultView>,
    table: Map<u64, u32>,
) -> bool {
    &&& forall|target: u32| #[trigger]
        refs.contains_key(target) <==> is_referenced(cache, table, target)
    &&& forall|target: u32, referencer: u32| #[trigger]
        tally(refs, target, referencer) == references_between(cache, table, referencer, target)
}

/// The cache with the lists applied: an entry that has a list gets it as its
/// references, every other entry and every other field stays as it is.
pub open spec fn applied(cache: Map<u32, ScanResultView>, refs: Map<u32, Seq<u32>>) -> Map<
    u32,
    ScanResultView,
> {
    Map::new(
        |tag: u32| cache.contains_key(tag),
        |tag: u32|
            if refs.contains_key(tag) {
                ScanResultView { references: refs[tag], ..cache[tag] }
            } else {
                cache[tag]
            },
    )
}

/// Whether `out` is `cache` with the reverse references filled in: the same
/// entries with the same matches; an entry that something refers to lists
/// every referencer once for each site, in some order; an entry that nothing
/// refers to keeps the references it had.
pub open spec fn transformed(
    out: Map<u32, ScanResultView>,
    cache: Map<u32, ScanResultView>,
    table: Map<u64, u32>,
) -> bool {
    &&& out.dom() == cache.dom()
    &&& forall|tag: u32| #[trigger]
        cache.contains_key(tag) ==> {
            &&& out[tag].file_hashes == cache[tag].file_hashes
            &&& out[tag].file_hashes64 == cache[tag].file_hashes64
            &&& out[tag].string_hashes == cache[tag].string_hashes
            &&& !is_referenced(cache, table, tag) ==> out[tag].references == cache[tag].references
        }
    &&& forall|tag: u32, referencer: u32|
        cache.contains_key(tag) && is_referenced(cache, table, tag) ==> #[trigger] out[tag].references.to_multiset().count(
            referencer,
        ) == references_between(cache, table, referencer, tag)
}

/// The sites of one scan result that refer to `target` among the first
/// `direct` identifier matches and the first `resolved` extended-identifier
/// matches.
spec fn sites_within(
    result: ScanResultView,
    table: Map<u64, u32>,
    target: u32,
    direct: int,
    resolved: int,
) -> nat {
    result.file_hashes.take(direct).filter(names(target)).len() + result.file_hashes64.take(
        resolved,
    ).filter(resolves_to(table, target)).len()
}

/// Whether the lists hold, beyond what `before` held, entry `current` once
/// for each of its sites among the first `direct` identifier matches and the
/// first `resolved` extended-identifier matches, and no list is empty.
spec fn extended(
    refs: Map<u32, Seq<u32>>,
    before: Map<u32, Seq<u32>>,
    result: ScanResultView,
    table: Map<u64, u32>,
    current: u32,
    direct: int,
    resolved: int,
) -> bool {
    &&& forall|target: u32| #[trigger] refs.contains_key(target) ==> refs[target].len() > 0
    &&& forall|target: u32, referencer: u32| #[trigger]
        tally(refs, target, referencer) == tally(before, target, referencer) + if referencer
            == current {
            sites_within(result, table, target, direct, resolved)
        } else {
            0
        }
}

proof fn lemma_filter_len_none<A>(s: Seq<A>, pred: spec_fn(A) -> bool)
    ensures
        s.take(0).filter(pred).len() == 0,
{
    reveal(Seq::filter);
}

/// Appends `referencer` to the list of `target`, starting the list if there
/// is none.
fn add_reference(refs: &mut ReferenceLists, target: u32, referencer: u32)
    ensures
        lists_of(final(refs)@) == lists_of(old(refs)@).insert(
            target,
            if old(refs)@.contains_key(target) {
                old(refs)@[target]@.push(referencer)
            } else {
                seq![referencer]
            },
        ),
{
    broadcast use group_hash_axioms;

    let mut list: Vec<u32> = match map_remove(refs, &target) {
        Some(list) => list,
        None => Vec::new(),
    };
    list.push(referencer);
    map_insert(refs, target, list);
    assert(lists_of(refs@) =~= lists_of(old(refs)@).insert(
        target,
        if old(refs)@.contains_key(target) {
            old(refs)@[target]@.push(referencer)
        } else {
            seq![referencer]
        },
    ));
}

/// One more site of `current` was added to the list of `target`.
proof fn lemma_site_added(
    before: Map<u32, Seq<u32>>,
    after: Map<u32, Seq<u32>>,
    target: u32,
    current: u32,
)
    requires
        after == before.insert(
            target,
            if before.contains_key(target) {
                before[target].push(current)
            } else {
                seq![current]
            },
        ),
    ensures
        forall|other: u32, referencer: u32| #[trigger]
            tally(after, other, referencer) == tally(before, other, referencer) + if other == target
                && referencer == current {
                1nat
            } else {
                0nat
            },
        after.contains_key(target) && after[target].len() > 0,
        forall|other: u32|
            other != target ==> (after.contains_key(other) <==> before.contains_key(other)) && (
            after.contains_key(other) ==> after[other] == before[other]),
{
    broadcast use to_multiset_build;

    assert(Seq::<u32>::empty().to_multiset() =~= Multiset::empty()) by {
        Seq::<u32>::empty().to_multiset_ensures();
    }
    assert(seq![current] =~= Seq::<u32>::empty().push(current));
    assert forall|other: u32, referencer: u32| #[trigger]
        tally(after, other, referencer) == tally(before, other, referencer) + if other == target
            && referencer == current {
            1nat
        } else {
            0nat
        } by {
        if other == target {
            if before.contains_key(target) {
                assert(after[target].to_multiset() =~= before[target].to_multiset().insert(current));
            } else {
                assert(after[target].to_multiset() =~= Multiset::<u32>::empty().insert(current));
            }
        }
    }
}

/// Adds entry `key` to the list of every identifier that its scan result
/// names, once for each site.
fn gather_entry(
    refs: &mut ReferenceLists,
    key: u32,
    result: &ScanResult,
    table: &HashMap<u64, u32>,
)
    requires
        forall|target: u32| #[trigger]
            lists_of(old(refs)@).contains_key(target) ==> lists_of(old(refs)@)[target].len() > 0,
    ensures
        forall|target: u32| #[trigger]
            lists_of(final(refs)@).contains_key(target) ==> lists_of(final(refs)@)[target].len() > 0,
        forall|target: u32, referencer: u32| #[trigger]
            tally(lists_of(final(refs)@), target, referencer) == tally(
                lists_of(old(refs)@),
                target,
                referencer,
            ) + if referencer == key {
                reference_sites(result@, table@, target)
            } else {
                0
            },
{
    broadcast use group_hash_axioms;

    let ghost start = lists_of(refs@);
    let ghost scan = result@;
    let ghost resolution = table@;
    proof {
        assert forall|target: u32| sites_within(scan, resolution, target, 0, 0) == 0 by {
            lemma_filter_len_none(scan.file_hashes, names(target));
            lemma_filter_len_none(scan.file_hashes64, resolves_to(resolution, target));
        }
    }
    let mut a: usize = 0;
    while a < result.file_hashes.len()
        invariant
            a <= result.file_hashes@.len(),
            scan == result@,
            extended(lists_of(refs@), start, scan, resolution, key, a as int, 0),
        decreases result.file_hashes@.len() - a,
    {
        let target: u32 = result.file_hashes[a].hash;
        let ghost before = lists_of(refs@);
        add_reference(refs, target, key);
        proof {
            lemma_site_added(before, lists_of(refs@), target, key);
            assert forall|other: u32, referencer: u32| #[trigger]
                tally(lists_of(refs@), other, referencer) == tally(start, other, referencer)
                    + if referencer == key {
                    sites_within(scan, resolution, other, a + 1, 0)
                } else {
                    0
                } by {
                lemma_filter_take_next(scan.file_hashes, names(other), a as int);
                assert(tally(before, other, referencer) == tally(start, other, referencer)
                    + if referencer == key {
                    sites_within(scan, resolution, other, a as int, 0)
                } else {
                    0
                });
            }
        }
        a += 1;
    }
    let mut b: usize = 0;
    while b < result.file_hashes64.len()
        invariant
            b <= result.file_hashes64@.len(),
            a == result.file_hashes@.len(),
            scan == result@,
            resolution == table@,
            extended(lists_of(refs@), start, scan, resolution, key, a as int, b as int),
        decreases result.file_hashes64@.len() - b,
    {
        let found = result.file_hashes64[b];
        let ghost before = lists_of(refs@);
        if let Some(target) = table.get(&found.hash) {
            add_reference(refs, *target, key);
            proof {
                lemma_site_added(before, lists_of(refs@), *target, key);
            }
        }
        proof {
            assert forall|other: u32, referencer: u32| #[trigger]
                tally(lists_of(refs@), other, referencer) == tally(start, other, referencer)
                    + if referencer == key {
                    sites_within(scan, resolution, other, a as int, b + 1)
                } else {
                    0
                } by {
                lemma_filter_take_next(
                    scan.file_hashes64,
                    resolves_to(resolution, other),
                    b as int,
                );
                assert(tally(before, other, referencer) == tally(start, other, referencer)
                    + if referencer == key {
                    sites_within(scan, resolution, other, a as int, b as int)
                } else {
                    0
                });
            }
        }
        b += 1;
    }
    proof {
        assert(scan.file_hashes.take(a as int) =~= scan.file_hashes);
        assert(scan.file_hashes64.take(b as int) =~= scan.file_hashes64);
        assert forall|target: u32| sites_within(scan, resolution, target, a as int, b as int)
            == reference_sites(scan, resolution, target) by {}
        assert forall|target: u32, referencer: u32| #[trigger]
            tally(lists_of(refs@), target, referencer) == tally(start, target, referencer)
                + if referencer == key {
                reference_sites(scan, resolution, target)
            } else {
                0
            } by {
            assert(sites_within(scan, resolution, target, a as int, b as int) == reference_sites(
                scan,
                resolution,
                target,
            ));
        }
    }
}

/// Gathers, for every identifier that the entries of the cache refer to, the
/// identifiers of the entries that do so.
pub fn gather_references(cache: &TagCache, table: &HashMap<u64, u32>) -> (refs: ReferenceLists)
    ensures
        gathers(lists_of(refs@), contents(cache@), table@),
{
    broadcast use group_hash_axioms;

    let ghost held = contents(cache@);
    let mut refs: ReferenceLists = ReferenceLists::default();
    let keys = map_keys(cache);
    let ghost mut done: Set<u32> = Set::empty();
    assert(lists_of(refs@) =~= Map::empty());
    let mut i: usize = 0;
    while i < keys.len()
        invariant
            i <= keys@.len(),
            keys@.no_duplicates(),
            keys@.to_set() == cache@.dom(),
            held == contents(cache@),
            done == keys@.take(i as int).to_set(),
            forall|target: u32| #[trigger]
                lists_of(refs@).contains_key(target) ==> lists_of(refs@)[target].len() > 0,
            forall|target: u32, referencer: u32| #[trigger]
                tally(lists_of(refs@), target, referencer) == if done.contains(referencer) {
                    references_between(held, table@, referencer, target)
                } else {
                    0
                },
        decreases keys@.len() - i,
    {
        let key: u32 = keys[i];
        proof {
            assert(keys@.to_set().contains(key));
            assert(keys@.take(i + 1) =~= keys@.take(i as int).push(key));
            keys@.take(i as int).lemma_push_to_set_commute(key);
            if done.contains(key) {
                let j = choose|j: int| 0 <= j < i && keys@.take(i as int)[j] == key;
                assert(keys@[j] == keys@[i as int]);
            }
        }
        if let Some(result) = map_get(cache, &key) {
            let ghost before = lists_of(refs@);
            gather_entry(&mut refs, key, result, table);
            proof {
                assert forall|target: u32, referencer: u32| #[trigger]
                    tally(lists_of(refs@), target, referencer) == if done.insert(key).contains(
                        referencer,
                    ) {
                        references_between(held, table@, referencer, target)
                    } else {
                        0
                    } by {
                    assert(tally(before, target, referencer) == if done.contains(referencer) {
                        references_between(held, table@, referencer, target)
                    } else {
                        0
                    });
                }
            }
        }
        proof {
            done = done.insert(key);
        }
        i += 1;
    }
    proof {
        assert(keys@.take(i as int) =~= keys@);
        let lists = lists_of(refs@);
        assert forall|target: u32, referencer: u32| #[trigger]
            tally(lists, target, referencer) == references_between(
                held,
                table@,
                referencer,
                target,
            ) by {
            assert(done.contains(referencer) <==> held.contains_key(referencer));
        }
        assert forall|target: u32| #[trigger]
            lists.contains_key(target) <==> is_referenced(held, table@, target) by {
            if lists.contains_key(target) {
                let first = lists[target][0];
                lists[target].to_multiset_ensures();
                assert(lists[target].contains(first));
                assert(tally(lists, target, first) > 0);
                assert(references_between(held, table@, first, target) > 0);
            }
            if is_referenced(held, table@, target) {
                let referencer = choose|referencer: u32|
                    references_between(held, table@, referencer, target) > 0;
                assert(tally(lists, target, referencer) > 0);
            }
        }
    }
    refs
}

/// Gives every entry that has a list that list as its references.
pub fn apply_references(cache: TagCache, refs: ReferenceLists) -> (out: TagCache)
    ensures
        contents(out@) == applied(contents(cache@), lists_of(refs@)),
{
    broadcast use group_hash_axioms;

    let mut cache = cache;
    let mut refs = refs;
    let ghost source = cache@;
    let ghost lists = refs@;
    let keys = map_keys(&cache);
    let mut out: TagCache = TagCache::default();
    let ghost mut done: Set<u32> = Set::empty();
    let mut i: usize = 0;
    while i < keys.len()
        invariant
            i <= keys@.len(),
            keys@.no_duplicates(),
            keys@.to_set() == source.dom(),
            done == keys@.take(i as int).to_set(),
            cache@ == source.remove_keys(done),
            refs@ == lists.remove_keys(done),
            out@.dom() == done,
            forall|tag: u32| #[trigger]
                out@.contains_key(tag) ==> out@[tag]@ == applied(
                    contents(source),
                    lists_of(lists),
                )[tag],
        decreases keys@.len() - i,
    {
        let key: u32 = keys[i];
        proof {
            assert(keys@.to_set().contains(key));
            assert(keys@.take(i + 1) =~= keys@.take(i as int).push(key));
            keys@.take(i as int).lemma_push_to_set_commute(key);
            if done.contains(key) {
                let j = choose|j: int| 0 <= j < i && keys@.take(i as int)[j] == key;
                assert(keys@[j] == keys@[i as int]);
            }
        }
        let taken = map_remove(&mut cache, &key);
        let list = map_remove(&mut refs, &key);
        if let Some(result) = taken {
            let mut scan = result;
            if let Some(references) = list {
                scan.references = references;
            }
            map_insert(&mut out, key, scan);
        }
        proof {
            assert(cache@ =~= source.remove_keys(done.insert(key)));
            assert(refs@ =~= lists.remove_keys(done.insert(key)));
            assert(out@.dom() =~= done.insert(key));
            done = done.insert(key);
        }
        i += 1;
    }
    proof {
        assert(keys@.take(i as int) =~= keys@);
        assert(contents(out@) =~= applied(contents(source), lists_of(lists)));
    }
    out
}

/// Transforms the tag cache to include the reverse references of every
/// entry.
pub fn transform_tag_cache(cache: TagCache, table: &HashMap<u64, u32>) -> (out: TagCache)
    ensures
        transformed(contents(out@), contents(cache@), table@),
{
    let refs = gather_references(&cache, table);
    let ghost held = contents(cache@);
    let ghost lists = lists_of(refs@);
    let out = apply_references(cache, refs);
    proof {
        assert(contents(out@).dom() =~= held.dom());
        assert forall|tag: u32, referencer: u32|
            held.contains_key(tag) && is_referenced(held, table@, tag) implies #[trigger] contents(
            out@,
        )[tag].references.to_multiset().count(referencer) == references_between(
            held,
            table@,
            referencer,
            tag,
        ) by {
            assert(lists.contains_key(tag));
            assert(tally(lists, tag, referencer) == references_between(
                held,
                table@,
                referencer,
                tag,
            ));
        }
    }
    out
}

/// Whether a scan result holds a match that names `target`, directly or
/// through an extended identifier that the table resolves.
pub open spec fn refers_to(result: ScanResultView, table: Map<u64, u32>, target: u32) -> bool {
    ||| exists|i: int|
        0 <= i < result.file_hashes.len() && (#[trigger] result.file_hashes[i]).hash == target
    ||| exists|j: int|
        0 <= j < result.file_hashes64.len() && table.contains_key(
            (#[trigger] result.file_hashes64[j]).hash,
        ) && table[result.file_hashes64[j].hash] == target
}

/// A scan result has a site that refers to `target` exactly when one of its
/// matches names it.
pub proof fn lemma_sites_are_matches(result: ScanResultView, table: Map<u64, u32>, target: u32)
    ensures
        reference_sites(result, table, target) > 0 <==> refers_to(result, table, target),
{
    let direct = result.file_hashes.filter(names(target));
    let resolved = result.file_hashes64.filter(resolves_to(table, target));
    if direct.len() > 0 {
        result.file_hashes.lemma_filter_pred(names(target), 0);
        assert(direct.contains(direct[0]));
        result.file_hashes.lemma_filter_contains_rev(names(target), direct[0]);
        let i = choose|i: int| 0 <= i < result.file_hashes.len() && result.file_hashes[i] == direct[0];
        assert(result.file_hashes[i].hash == target);
    }
    if resolved.len() > 0 {
        result.file_hashes64.lemma_filter_pred(resolves_to(table, target), 0);
        assert(resolved.contains(resolved[0]));
        result.file_hashes64.lemma_filter_contains_rev(resolves_to(table, target), resolved[0]);
        let j = choose|j: int|
            0 <= j < result.file_hashes64.len() && result.file_hashes64[j] == resolved[0];
        assert(table.contains_key(result.file_hashes64[j].hash));
    }
    if exists|i: int|
        0 <= i < result.file_hashes.len() && (#[trigger] result.file_hashes[i]).hash == target {
        let i = choose|i: int|
            0 <= i < result.file_hashes.len() && (#[trigger] result.file_hashes[i]).hash == target;
        result.file_hashes.lemma_filter_contains(names(target), i);
    }
    if exists|j: int|
        0 <= j < result.file_hashes64.len() && table.contains_key(
            (#[trigger] result.file_hashes64[j]).hash,
        ) && table[result.file_hashes64[j].hash] == target {
        let j = choose|j: int|
            0 <= j < result.file_hashes64.len() && table.contains_key(
                (#[trigger] result.file_hashes64[j]).hash,
            ) && table[result.file_hashes64[j].hash] == target;
        result.file_hashes64.lemma_filter_contains(resolves_to(table, target), j);
    }
}

/// After the transform of a flat cache, `referencer` is among the references
/// of entry `target` exactly when `referencer` is an entry of the cache whose
/// scan holds a match that names `target`, directly or through the table.
pub proof fn lemma_reverse_references(
    out: Map<u32, ScanResultView>,
    cache: Map<u32, ScanResultView>,
    table: Map<u64, u32>,
    referencer: u32,
    target: u32,
)
    requires
        transformed(out, cache, table),
        is_flat(cache),
        cache.contains_key(target),
    ensures
        out[target].references.contains(referencer) <==> cache.contains_key(referencer)
            && refers_to(cache[referencer], table, target),
{
    if cache.contains_key(referencer) {
        lemma_sites_are_matches(cache[referencer], table, target);
    }
    out[target].references.to_multiset_ensures();
    if is_referenced(cache, table, target) {
        assert(out[target].references.to_multiset().count(referencer) == references_between(
            cache,
            table,
            referencer,
            target,
        ));
    } else {
        assert(out[target].references == cache[target].references);
        assert(references_between(cache, table, referencer, target) == 0);
    }
}

/// After the transform of a flat cache, the references of an entry hold each
/// referencer as often as that referencer has sites that name the entry.
pub proof fn lemma_reference_multiplicity(
    out: Map<u32, ScanResultView>,
    cache: Map<u32, ScanResultView>,
    table: Map<u64, u32>,
    referencer: u32,
    target: u32,
)
    requires
        transformed(out, cache, table),
        is_flat(cache),
        cache.contains_key(target),
    ensures
        out[target].references.to_multiset().count(referencer) == references_between(
            cache,
            table,
            referencer,
            target,
        ),
{
    if !is_referenced(cache, table, target) {
        assert(out[target].references =~= Seq::<u32>::empty());
        out[target].references.to_multiset_ensures();
        assert(references_between(cache, table, referencer, target) == 0);
        assert(!out[target].references.contains(referencer));
    }
}

/// Where two entries of a flat cache name each other, or neither names the
/// other, each is among the references of the other exactly when its own
/// scan names the other.
pub proof fn lemma_mutual_references(
    out: Map<u32, ScanResultView>,
    cache: Map<u32, ScanResultView>,
    table: Map<u64, u32>,
    first: u32,
    second: u32,
)
    requires
        transformed(out, cache, table),
        is_flat(cache),
        cache.contains_key(first),
        cache.contains_key(second),
        refers_to(cache[first], table, second) == refers_to(cache[second], table, first),
    ensures
        out[second].references.contains(first) <==> refers_to(cache[second], table, first),
{
    lemma_reverse_references(out, cache, table, first, second);
}

} // verus!
