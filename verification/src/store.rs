//! The stored form of a tag cache: its entries as rows of plain integers,
//! serialized with bincode and compressed into one zstd frame.
//!
//! A row is the key of an entry and the four lists of its scan result. bincode
//! writes a vector of such rows byte for byte as it writes a map from the key
//! to a record of the four lists, so an artifact reads the same whichever of
//! the two was serialized.

use crate::cache::contents;
use crate::cache::TagCache;
use crate::progress::ScanStatus;
use crate::scanner::ScanResult;
use crate::scanner::ScanResultView;
use crate::scanner::ScannedHash;
use crate::tables::map_get;
use crate::tables::map_insert;
use crate::tables::map_keys;
use vstd::prelude::*;
use vstd::std_specs::hash::group_hash_axioms;

verus! {

/// The compression level of the stored cache.
pub const COMPRESSION_LEVEL: i32 = 5;

/// The lists of one scan result as plain integers: identifier matches,
/// extended-identifier matches and string-hash matches, each as pairs of
/// offset and value, and the references.
pub type RowBody = (Vec<(u64, u32)>, Vec<(u64, u64)>, Vec<(u64, u32)>, Vec<u32>);

/// One entry of a cache as plain integers: the key and the scan result.
pub type CacheRow = (u32, RowBody);

/// The mathematical content of a [`RowBody`].
pub type RowBodyView = (Seq<(u64, u32)>, Seq<(u64, u64)>, Seq<(u64, u32)>, Seq<u32>);

/// The mathematical content of a [`CacheRow`].
pub type CacheRowView = (u32, RowBodyView);

/// The layer of the stored form at which storing or loading failed.
#[derive(Clone, Copy, Debug, PartialEq, Eq, Structural)]
pub enum StoreError {
    /// The rows could not be serialized, or the bytes are no rows.
    Encoding,
    /// The bytes could not be compressed, or the frame does not unpack.
    Compression,
}

#[verifier::external_type_specification]
#[verifier::external_body]
pub struct ExBincodeErrorKind(bincode::ErrorKind);

#[verifier::external_type_specification]
#[verifier::external_body]
pub struct ExIoError(std::io::Error);

impl From<Box<bincode::ErrorKind>> for StoreError {
    /// An error of bincode is a failure at the encoding layer.
    fn from(error: Box<bincode::ErrorKind>) -> (r: StoreError) {
        StoreError::Encoding
    }
}

impl vstd::std_specs::convert::FromSpecImpl<Box<bincode::ErrorKind>> for StoreError {
    open spec fn obeys_from_spec() -> bool {
        true
    }

    open spec fn from_spec(error: Box<bincode::ErrorKind>) -> StoreError {
        StoreError::Encoding
    }
}

impl From<std::io::Error> for StoreError {
    /// An error of zstd is a failure at the compression layer.
    fn from(error: std::io::Error) -> (r: StoreError) {
        StoreError::Compression
    }
}

impl vstd::std_specs::convert::FromSpecImpl<std::io::Error> for StoreError {
    open spec fn obeys_from_spec() -> bool {
        true
    }

    open spec fn from_spec(error: std::io::Error) -> StoreError {
        StoreError::Compression
    }
}

/// What `bincode::serialize` gives for a vector of rows: bytes, or `None`.
pub uninterp spec fn bincode_image(rows: Seq<CacheRowView>) -> Option<Seq<u8>>;

/// The rows that `bincode::deserialize` reads from the bytes, or `None` where
/// it rejects them.
pub uninterp spec fn bincode_rows(bytes: Seq<u8>) -> Option<Seq<CacheRowView>>;

/// The bytes that `zstd::stream::decode_all` unpacks from the frame, or `None`
/// where it rejects the frame.
pub uninterp spec fn zstd_content(frame: Seq<u8>) -> Option<Seq<u8>>;

/// The frame that `zstd::stream::encode_all` makes of the data at the level
/// given, or `None` where it fails.
pub uninterp spec fn zstd_frame(data: Seq<u8>, level: i32) -> Option<Seq<u8>>;

/// `bincode::serialize` on a vector of rows. Trusted: whether it succeeds,
/// and the bytes it gives, depend on the rows alone (it writes to memory with
/// no size limit), and `bincode::deserialize` reads the same rows back from
/// the bytes, as the documentation of bincode says of the two.
#[verifier::external_body]
fn bincode_serialize(rows: &Vec<CacheRow>) -> (r: Result<Vec<u8>, Box<bincode::ErrorKind>>)
    ensures
        r matches Ok(bytes) ==> bincode_image(rows_view(rows@)) == Some(bytes@) && bincode_rows(
            bytes@,
        ) == Some(rows_view(rows@)),
        r is Err ==> bincode_image(rows_view(rows@)) is None,
{
    bincode::serialize(rows)
}

/// `bincode::deserialize` of a vector of rows. Trusted: whether it accepts
/// the bytes, and the rows it reads, depend on the bytes alone.
#[verifier::external_body]
fn bincode_deserialize(bytes: &[u8]) -> (r: Result<Vec<CacheRow>, Box<bincode::ErrorKind>>)
    ensures
        match r {
            Ok(rows) => bincode_rows(bytes@) == Some(rows_view(rows@)),
            Err(_) => bincode_rows(bytes@) is None,
        },
{
    bincode::deserialize(bytes)
}

/// `zstd::stream::encode_all` on a slice. Trusted: whether it succeeds, and
/// the frame it makes, depend on the data and the level alone (one thread, no
/// dictionary, a level outside the range is clamped), and the frame is one
/// that `zstd::stream::decode_all` unpacks to the data given: compression
/// loses nothing.
#[verifier::external_body]
fn zstd_encode(data: &[u8], level: i32) -> (r: Result<Vec<u8>, std::io::Error>)
    ensures
        r matches Ok(frame) ==> zstd_frame(data@, level) == Some(frame@) && zstd_content(frame@)
            == Some(data@),
        r is Err ==> zstd_frame(data@, level) is None,
{
    zstd::stream::encode_all(data, level)
}

/// `zstd::stream::decode_all`. Trusted: whether it accepts the frame, and the
/// bytes it unpacks, depend on the frame alone.
#[verifier::external_body]
fn zstd_decode(frame: &[u8]) -> (r: Result<Vec<u8>, std::io::Error>)
    ensures
        match r {
            Ok(data) => zstd_content(frame@) == Some(data@),
            Err(_) => zstd_content(frame@) is None,
        },
{
    zstd::stream::decode_all(frame)
}

/// A match as a pair of offset and value.
pub open spec fn pair_of<T>(found: ScannedHash<T>) -> (u64, T) {
    (found.offset, found.hash)
}

/// A pair of offset and value as a match.
pub open spec fn found_of<T>(pair: (u64, T)) -> ScannedHash<T> {
    ScannedHash { offset: pair.0, hash: pair.1 }
}

/// The matches of a list as pairs, in the same order.
pub open spec fn pairs_of<T>(list: Seq<ScannedHash<T>>) -> Seq<(u64, T)> {
    Seq::new(list.len(), |i: int| pair_of(list[i]))
}

/// The pairs of a list as matches, in the same order.
pub open spec fn founds_of<T>(list: Seq<(u64, T)>) -> Seq<ScannedHash<T>> {
    Seq::new(list.len(), |i: int| found_of(list[i]))
}

/// The content of a row.
pub open spec fn row_view(row: CacheRow) -> CacheRowView {
    (row.0, (row.1.0@, row.1.1@, row.1.2@, row.1.3@))
}

/// The content of each row of a list.
pub open spec fn rows_view(rows: Seq<CacheRow>) -> Seq<CacheRowView> {
    Seq::new(rows.len(), |i: int| row_view(rows[i]))
}

/// The row that stands for the scan result `result` of entry `tag`.
pub open spec fn row_of(tag: u32, result: ScanResultView) -> CacheRowView {
    (
        tag,
        (
            pairs_of(result.file_hashes),
            pairs_of(result.file_hashes64),
            pairs_of(result.string_hashes),
            result.references,
        ),
    )
}

/// The scan result that a row stands for.
pub open spec fn result_of(row: CacheRowView) -> ScanResultView {
    ScanResultView {
        file_hashes: founds_of(row.1.0),
        file_hashes64: founds_of(row.1.1),
        string_hashes: founds_of(row.1.2),
        references: row.1.3,
    }
}

/// Whether the rows list the cache: one row for every key, none twice, each
/// standing for the scan result of its key. The order of the rows is free.
pub open spec fn lists(rows: Seq<CacheRowView>, cache: Map<u32, ScanResultView>) -> bool {
    &&& forall|i: int, j: int| 0 <= i < j < rows.len() ==> rows[i].0 != rows[j].0
    &&& forall|i: int| 0 <= i < rows.len() ==> cache.contains_key(#[trigger] rows[i].0)
    &&& forall|tag: u32|
        cache.contains_key(tag) ==> exists|i: int| 0 <= i < rows.len() && #[trigger] rows[i].0 == tag
    &&& forall|i: int| 0 <= i < rows.len() ==> #[trigger] rows[i] == row_of(rows[i].0, cache[rows[i].0])
}

/// The cache that rows stand for: each row puts its scan result under its
/// key, a later row replacing an earlier one with the same key.
pub open spec fn cache_of_rows(rows: Seq<CacheRowView>) -> Map<u32, ScanResultView>
    decreases rows.len(),
{
    if rows.len() == 0 {
        Map::empty()
    } else {
        cache_of_rows(rows.drop_last()).insert(rows.last().0, result_of(rows.last()))
    }
}

/// The cache that a stored artifact holds: what its frame unpacks to, read as
/// rows; `None` where the frame or the bytes in it are rejected.
pub open spec fn stored_cache(frame: Seq<u8>) -> Option<Map<u32, ScanResultView>> {
    match zstd_content(frame) {
        Some(bytes) => match bincode_rows(bytes) {
            Some(rows) => Some(cache_of_rows(rows)),
            None => None,
        },
        None => None,
    }
}

/// Turning matches into pairs and back gives the matches again.
pub proof fn lemma_pairs_round_trip<T>(list: Seq<ScannedHash<T>>)
    ensures
        founds_of(pairs_of(list)) == list,
{
    assert(founds_of(pairs_of(list)) =~= list);
}

/// A row stands for the scan result it was made from.
pub proof fn lemma_row_round_trip(tag: u32, result: ScanResultView)
    ensures
        result_of(row_of(tag, result)) == result,
{
    lemma_pairs_round_trip(result.file_hashes);
    lemma_pairs_round_trip(result.file_hashes64);
    lemma_pairs_round_trip(result.string_hashes);
}

/// Rows that list a cache stand for exactly that cache, in whatever order
/// they come.
pub proof fn lemma_rows_restore_cache(rows: Seq<CacheRowView>, cache: Map<u32, ScanResultView>)
    requires
        lists(rows, cache),
    ensures
        cache_of_rows(rows) == cache,
{
    lemma_rows_prefix(rows, cache, rows.len() as int);
    assert(rows.take(rows.len() as int) =~= rows);
    let restored = cache_of_rows(rows);
    assert forall|tag: u32| cache.contains_key(tag) <==> restored.contains_key(tag) by {
        if cache.contains_key(tag) {
            let i = choose|i: int| 0 <= i < rows.len() && #[trigger] rows[i].0 == tag;
        }
        if restored.contains_key(tag) {
            let i = choose|i: int| 0 <= i < rows.len() && #[trigger] rows[i].0 == tag;
        }
    }
    assert(restored =~= cache);
}

proof fn lemma_rows_prefix(rows: Seq<CacheRowView>, cache: Map<u32, ScanResultView>, n: int)
    requires
        lists(rows, cache),
        0 <= n <= rows.len(),
    ensures
        forall|tag: u32|
            #[trigger] cache_of_rows(rows.take(n)).contains_key(tag) <==> exists|i: int|
                0 <= i < n && #[trigger] rows[i].0 == tag,
        forall|tag: u32|
            #[trigger] cache_of_rows(rows.take(n)).contains_key(tag) ==> cache_of_rows(
                rows.take(n),
            )[tag] == cache[tag],
    decreases n,
{
    let current = cache_of_rows(rows.take(n));
    if n == 0 {
        assert(rows.take(0).len() == 0);
        assert(current =~= Map::empty());
    } else {
        lemma_rows_prefix(rows, cache, n - 1);
        let earlier = cache_of_rows(rows.take(n - 1));
        assert(rows.take(n).drop_last() =~= rows.take(n - 1));
        let last = rows[n - 1];
        assert(rows.take(n).last() == last);
        lemma_row_round_trip(last.0, cache[last.0]);
        assert(current == earlier.insert(last.0, cache[last.0]));
        assert forall|tag: u32| #[trigger]
            current.contains_key(tag) <==> exists|i: int|
                0 <= i < n && #[trigger] rows[i].0 == tag by {
            if exists|i: int| 0 <= i < n && #[trigger] rows[i].0 == tag {
                let i = choose|i: int| 0 <= i < n && #[trigger] rows[i].0 == tag;
                if i < n - 1 {
                    assert(earlier.contains_key(tag));
                }
            }
            if current.contains_key(tag) {
                if tag != last.0 {
                    assert(earlier.contains_key(tag));
                    let i = choose|i: int| 0 <= i < n - 1 && #[trigger] rows[i].0 == tag;
                    assert(0 <= i < n && rows[i].0 == tag);
                } else {
                    assert(rows[n - 1].0 == tag);
                }
            }
        }
        assert forall|tag: u32| #[trigger] current.contains_key(tag) implies current[tag]
            == cache[tag] by {
            if tag != last.0 {
                assert(earlier.contains_key(tag));
            }
        }
    }
}

fn pairs<T: Copy>(list: &Vec<ScannedHash<T>>) -> (out: Vec<(u64, T)>)
    ensures
        out@ == pairs_of(list@),
{
    let mut out: Vec<(u64, T)> = Vec::new();
    let mut i: usize = 0;
    while i < list.len()
        invariant
            i <= list@.len(),
            out@ == pairs_of(list@.take(i as int)),
        decreases list@.len() - i,
    {
        let found = list[i];
        out.push((found.offset, found.hash));
        assert(out@ =~= pairs_of(list@.take(i + 1)));
        i += 1;
    }
    assert(list@.take(i as int) =~= list@);
    out
}

fn founds<T: Copy>(list: &Vec<(u64, T)>) -> (out: Vec<ScannedHash<T>>)
    ensures
        out@ == founds_of(list@),
{
    let mut out: Vec<ScannedHash<T>> = Vec::new();
    let mut i: usize = 0;
    while i < list.len()
        invariant
            i <= list@.len(),
            out@ == founds_of(list@.take(i as int)),
        decreases list@.len() - i,
    {
        let pair = list[i];
        out.push(ScannedHash { offset: pair.0, hash: pair.1 });
        assert(out@ =~= founds_of(list@.take(i + 1)));
        i += 1;
    }
    assert(list@.take(i as int) =~= list@);
    out
}

/// The row that stands for one entry of a cache.
pub fn scan_result_row(tag: u32, result: &ScanResult) -> (row: CacheRow)
    ensures
        row_view(row) == row_of(tag, result@),
{
    let references = result.references.clone();
    assert(references@ =~= result.references@);
    (
        tag,
        (
            pairs(&result.file_hashes),
            pairs(&result.file_hashes64),
            pairs(&result.string_hashes),
            references,
        ),
    )
}

/// The scan result that a row stands for.
pub fn row_scan_result(row: &CacheRow) -> (result: ScanResult)
    ensures
        result@ == result_of(row_view(*row)),
{
    let references = row.1.3.clone();
    assert(references@ =~= row.1.3@);
    ScanResult {
        file_hashes: founds(&row.1.0),
        file_hashes64: founds(&row.1.1),
        string_hashes: founds(&row.1.2),
        references,
    }
}

/// Lists a cache as rows, one for each entry, in the order in which the
/// cache is walked.
pub fn tag_cache_rows(cache: &TagCache) -> (rows: Vec<CacheRow>)
    ensures
        lists(rows_view(rows@), contents(cache@)),
{
    broadcast use group_hash_axioms;

    let keys = map_keys(cache);
    let mut rows: Vec<CacheRow> = Vec::new();
    let mut i: usize = 0;
    while i < keys.len()
        invariant
            i <= keys@.len(),
            keys@.no_duplicates(),
            keys@.to_set() == cache@.dom(),
            rows@.len() == i,
            forall|k: int|
                0 <= k < i ==> #[trigger] row_view(rows@[k]) == row_of(
                    keys@[k],
                    contents(cache@)[keys@[k]],
                ),
        decreases keys@.len() - i,
    {
        let key: u32 = keys[i];
        assert(keys@.to_set().contains(key));
        if let Some(result) = map_get(cache, &key) {
            rows.push(scan_result_row(key, result));
        }
        i += 1;
    }
    proof {
        let listed = rows_view(rows@);
        let held = contents(cache@);
        assert forall|k: int| 0 <= k < listed.len() implies held.contains_key(
            #[trigger] listed[k].0,
        ) by {
            assert(row_view(rows@[k]).0 == keys@[k]);
            assert(keys@.to_set().contains(keys@[k]));
        }
        assert forall|tag: u32| held.contains_key(tag) implies exists|k: int|
            0 <= k < listed.len() && #[trigger] listed[k].0 == tag by {
            assert(keys@.to_set().contains(tag));
            let k = choose|k: int| 0 <= k < keys@.len() && keys@[k] == tag;
            assert(row_view(rows@[k]).0 == keys@[k]);
            assert(listed[k].0 == tag);
        }
        assert forall|a: int, b: int| 0 <= a < b < listed.len() implies listed[a].0 != listed[b].0 by {
            assert(row_view(rows@[a]).0 == keys@[a]);
            assert(row_view(rows@[b]).0 == keys@[b]);
        }
        assert forall|k: int| 0 <= k < listed.len() implies #[trigger] listed[k] == row_of(
            listed[k].0,
            held[listed[k].0],
        ) by {
            assert(row_view(rows@[k]).0 == keys@[k]);
        }
    }
    rows
}

/// Builds the cache that rows stand for.
pub fn tag_cache_from_rows(rows: &Vec<CacheRow>) -> (cache: TagCache)
    ensures
        contents(cache@) == cache_of_rows(rows_view(rows@)),
{
    broadcast use group_hash_axioms;

    let mut cache: TagCache = TagCache::default();
    let ghost listed = rows_view(rows@);
    assert(contents(cache@) =~= cache_of_rows(listed.take(0)));
    let mut i: usize = 0;
    while i < rows.len()
        invariant
            i <= rows@.len(),
            listed == rows_view(rows@),
            contents(cache@) == cache_of_rows(listed.take(i as int)),
        decreases rows@.len() - i,
    {
        let row = &rows[i];
        let result = row_scan_result(row);
        let ghost before = cache@;
        map_insert(&mut cache, row.0, result);
        proof {
            assert(listed.take(i + 1).drop_last() =~= listed.take(i as int));
            assert(listed.take(i + 1).last() == row_view(*row));
            assert(contents(cache@) =~= contents(before).insert(row.0, result@));
        }
        i += 1;
    }
    assert(listed.take(i as int) =~= listed);
    cache
}

/// Whether `outcome` is what storing the cache gives. A frame is the one that
/// zstd makes at [`COMPRESSION_LEVEL`] of the bytes that bincode gives for
/// rows listing the cache, and it holds the cache as it was given. A failure
/// names the layer that failed: the encoding layer where bincode fails on the
/// rows, the compression layer where the rows serialize and zstd fails on the
/// bytes.
pub open spec fn is_stored_form(
    cache: Map<u32, ScanResultView>,
    outcome: Result<Vec<u8>, StoreError>,
) -> bool {
    match outcome {
        Ok(frame) => {
            &&& stored_cache(frame@) == Some(cache)
            &&& zstd_content(frame@) matches Some(image) && serializes_to(cache, Some(image))
                && zstd_frame(image, COMPRESSION_LEVEL) == Some(frame@)
        },
        Err(StoreError::Encoding) => serializes_to(cache, None),
        Err(StoreError::Compression) => exists|image: Seq<u8>| #[trigger]
            serializes_to(cache, Some(image)) && zstd_frame(image, COMPRESSION_LEVEL) is None,
    }
}

/// Brings a cache into its stored form: its rows, serialized and compressed
/// at [`COMPRESSION_LEVEL`].
pub fn encode_tag_cache(cache: &TagCache) -> (r: Result<Vec<u8>, StoreError>)
    ensures
        is_stored_form(contents(cache@), r),
{
    let rows = tag_cache_rows(cache);
    proof {
        lemma_rows_restore_cache(rows_view(rows@), contents(cache@));
    }
    match bincode_serialize(&rows) {
        Ok(bytes) => {
            assert(serializes_to(contents(cache@), Some(bytes@))) by {
                assert(bincode_image(rows_view(rows@)) == Some(bytes@));
            }
            frame_outcome(zstd_encode(bytes.as_slice(), COMPRESSION_LEVEL))
        },
        Err(error) => {
            assert(serializes_to(contents(cache@), None)) by {
                assert(bincode_image(rows_view(rows@)) == None::<Seq<u8>>);
            }
            Err(StoreError::from(error))
        },
    }
}

/// Ends a build with the store step: brings the cache into its stored form
/// for the artifact to be written. The second part of the result is the status
/// to record when the step is over. It is the idle status whether the artifact
/// could be made or not: the run has ended, and the cache that was built stays
/// in use either way.
pub fn store_tag_cache(cache: &TagCache) -> (r: (Result<Vec<u8>, StoreError>, ScanStatus))
    ensures
        is_stored_form(contents(cache@), r.0),
        r.1 == ScanStatus::Idle,
{
    (encode_tag_cache(cache), ScanStatus::Idle)
}

/// Whether serializing the cache has the outcome given: there are rows that
/// list the cache and that bincode turns into these bytes, or, for `None`,
/// that it fails on.
pub open spec fn serializes_to(cache: Map<u32, ScanResultView>, outcome: Option<Seq<u8>>) -> bool {
    exists|rows: Seq<CacheRowView>| lists(rows, cache) && #[trigger] bincode_image(rows) == outcome
}

/// What storing gives once the compressor has answered: the frame it made, or
/// a failure at the compression layer.
pub fn frame_outcome(compressed: Result<Vec<u8>, std::io::Error>) -> (r: Result<Vec<u8>, StoreError>)
    ensures
        match compressed {
            Ok(frame) => r == Ok::<Vec<u8>, StoreError>(frame),
            Err(_) => r == Err::<Vec<u8>, StoreError>(StoreError::Compression),
        },
{
    match compressed {
        Ok(frame) => Ok(frame),
        Err(error) => Err(StoreError::from(error)),
    }
}

/// Reads a cache from its stored form. A frame that does not unpack fails at
/// the compression layer, bytes that are no rows at the encoding layer.
pub fn decode_tag_cache(frame: &[u8]) -> (r: Result<TagCache, StoreError>)
    ensures
        match r {
            Ok(cache) => stored_cache(frame@) == Some(contents(cache@)),
            Err(StoreError::Compression) => zstd_content(frame@) is None,
            Err(StoreError::Encoding) => zstd_content(frame@) matches Some(bytes) && bincode_rows(
                bytes,
            ) is None,
        },
{
    match zstd_decode(frame) {
        Ok(bytes) => match bincode_deserialize(bytes.as_slice()) {
            Ok(rows) => Ok(tag_cache_from_rows(&rows)),
            Err(error) => Err(StoreError::from(error)),
        },
        Err(error) => Err(StoreError::from(error)),
    }
}

/// Loads the tag cache from its stored artifact: `file` is what the artifact
/// holds, or `None` where there is none. A cache that loads is returned and
/// the run is over. Where there is no artifact, or it is rejected at either
/// layer, nothing is returned and the cache has to be built, beginning with
/// the scanner context. The second part of the result is the status to
/// record next.
pub fn load_tag_cache(file: Option<&[u8]>) -> (r: (Option<TagCache>, ScanStatus))
    ensures
        match r.0 {
            Some(cache) => file matches Some(frame) && stored_cache(frame@) == Some(contents(cache@))
                && r.1 == ScanStatus::Idle,
            None => (file matches Some(frame) ==> stored_cache(frame@) is None) && r.1
                == ScanStatus::CreatingScanner,
        },
{
    match file {
        Some(frame) => match decode_tag_cache(frame) {
            Ok(cache) => (Some(cache), ScanStatus::Idle),
            Err(_) => (None, ScanStatus::CreatingScanner),
        },
        None => (None, ScanStatus::CreatingScanner),
    }
}

} // verus!
