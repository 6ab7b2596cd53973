//! The tag cache: one scan result for every scanned entry, keyed by the
//! identifier of the entry.

use crate::scanner::ScanResult;
use crate::scanner::ScanResultView;
use crate::tables::map_insert;
use crate::tables::map_keys;
use crate::tables::map_remove;
use nohash_hasher::IntMap;
use vstd::prelude::*;
use vstd::std_specs::hash::group_hash_axioms;

verus! {

/// Scan results by entry identifier.
pub type TagCache = IntMap<u32, ScanResult>;

/// What a cache holds: the content of the scan result of every key.
pub open spec fn contents(cache: Map<u32, ScanResult>) -> Map<u32, ScanResultView> {
    Map::new(|tag: u32| cache.contains_key(tag), |tag: u32| cache[tag]@)
}

/// Whether no entry of the cache has references recorded yet, as is the case
/// for every cache that comes straight out of scanning.
pub open spec fn is_flat(cache: Map<u32, ScanResultView>) -> bool {
    forall|tag: u32| #[trigger] cache.contains_key(tag) ==> cache[tag].references.len() == 0
}

/// The union of the caches in order: where several of them hold a key, the
/// last one decides.
pub open spec fn merged(parts: Seq<Map<u32, ScanResultView>>) -> Map<u32, ScanResultView>
    decreases parts.len(),
{
    if parts.len() == 0 {
        Map::empty()
    } else {
        merged(parts.drop_last()).union_prefer_right(parts.last())
    }
}

/// The contents of each cache of a list.
pub open spec fn all_contents(parts: Seq<TagCache>) -> Seq<Map<u32, ScanResultView>> {
    Seq::new(parts.len(), |i: int| contents(parts[i]@))
}

/// Moves every entry of `part` into `cache`, replacing what `cache` held under
/// the same key.
pub fn absorb(cache: &mut TagCache, part: TagCache)
    ensures
        contents(final(cache)@) == contents(old(cache)@).union_prefer_right(contents(part@)),
{
    broadcast use group_hash_axioms;

    let mut part = part;
    let keys = map_keys(&part);
    let ghost source = part@;
    let ghost target = cache@;
    let ghost mut moved: Set<u32> = Set::empty();
    let mut i: usize = 0;
    while i < keys.len()
        invariant
            i <= keys@.len(),
            keys@.no_duplicates(),
            keys@.to_set() == source.dom(),
            moved == keys@.take(i as int).to_set(),
            part@ == source.remove_keys(moved),
            cache@.dom() == target.dom().union(moved),
            forall|tag: u32|
                #[trigger] cache@.contains_key(tag) ==> cache@[tag] == if moved.contains(tag) {
                    source[tag]
                } else {
                    target[tag]
                },
        decreases keys@.len() - i,
    {
        let key: u32 = keys[i];
        proof {
            assert(keys@.to_set().contains(key));
            assert(keys@.take(i + 1) =~= keys@.take(i as int).push(key));
            keys@.take(i as int).lemma_push_to_set_commute(key);
            if moved.contains(key) {
                let j = choose|j: int| 0 <= j < i && keys@.take(i as int)[j] == key;
                assert(keys@[j] == keys@[i as int]);
            }
        }
        match map_remove(&mut part, &key) {
            Some(result) => {
                map_insert(cache, key, result);
            },
            None => {},
        }
        proof {
            assert(part@ =~= source.remove_keys(moved.insert(key)));
            assert(cache@.dom() =~= target.dom().union(moved.insert(key)));
            moved = moved.insert(key);
        }
        i += 1;
    }
    proof {
        assert(keys@.take(i as int) =~= keys@);
        assert(contents(cache@) =~= contents(target).union_prefer_right(contents(source)));
    }
}

/// Merges the caches of several packages into one.
pub fn merge_results(parts: Vec<TagCache>) -> (cache: TagCache)
    ensures
        contents(cache@) == merged(all_contents(parts@)),
{
    let ghost all = all_contents(parts@);
    let mut cache: TagCache = TagCache::default();
    assert(contents(cache@) =~= merged(all.take(0)));
    for part in it: parts.into_iter()
        invariant
            it.seq() == parts@,
            all == all_contents(parts@),
            contents(cache@) == merged(all.take(it.index())),
            it.index() == it.seq().len() ==> contents(cache@) == merged(all),
    {
        let ghost done = it.index();
        absorb(&mut cache, part);
        proof {
            assert(all.take(done + 1).drop_last() =~= all.take(done));
            assert(all.take(all.len() as int) =~= all);
        }
    }
    cache
}

/// When no two caches of a list share a key, merging loses nothing: every
/// entry of every cache is in the union as it was.
pub proof fn lemma_merged_keeps_disjoint(parts: Seq<Map<u32, ScanResultView>>, i: int, tag: u32)
    requires
        0 <= i < parts.len(),
        parts[i].contains_key(tag),
        forall|a: int, b: int, t: u32|
            0 <= a < b < parts.len() && #[trigger] parts[a].contains_key(t) ==> !#[trigger] parts[b].contains_key(
                t,
            ),
    ensures
        merged(parts).contains_key(tag),
        merged(parts)[tag] == parts[i][tag],
    decreases parts.len(),
{
    let last = parts.len() - 1;
    if i == last {
    } else {
        let front = parts.drop_last();
        assert forall|a: int, b: int, t: u32|
            0 <= a < b < front.len() && #[trigger] front[a].contains_key(t) implies !#[trigger] front[b].contains_key(
            t,
        ) by {
            assert(parts[a].contains_key(t));
            assert(!parts[b].contains_key(t));
        }
        lemma_merged_keeps_disjoint(front, i, tag);
        assert(!parts[last].contains_key(tag));
    }
}

/// The union holds a key exactly when one of the caches does.
pub proof fn lemma_merged_domain(parts: Seq<Map<u32, ScanResultView>>, tag: u32)
    ensures
        merged(parts).contains_key(tag) <==> exists|i: int|
            0 <= i < parts.len() && #[trigger] parts[i].contains_key(tag),
    decreases parts.len(),
{
    if parts.len() > 0 {
        let front = parts.drop_last();
        lemma_merged_domain(front, tag);
        if merged(parts).contains_key(tag) {
            if parts.last().contains_key(tag) {
                assert(parts[parts.len() - 1].contains_key(tag));
            } else {
                let i = choose|i: int| 0 <= i < front.len() && #[trigger] front[i].contains_key(tag);
                assert(parts[i].contains_key(tag));
            }
        }
        if exists|i: int| 0 <= i < parts.len() && #[trigger] parts[i].contains_key(tag) {
            let i = choose|i: int| 0 <= i < parts.len() && #[trigger] parts[i].contains_key(tag);
            if i < front.len() {
                assert(front[i].contains_key(tag));
            }
        }
    }
}

} // verus!
