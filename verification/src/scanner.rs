//! The entry scanner: finds, in the raw bytes of one entry, every aligned
//! window whose value is a known identifier or a known string hash.

use crate::context::HashUniverse;
use crate::context::ScannerContext;
use crate::tables::set_contains;
use crate::tag::tag_is_pkg_file;
use vstd::prelude::*;
use vstd::std_specs::hash::group_hash_axioms;

verus! {

/// The hash of the empty string. A window that holds it counts as a string
/// hash whatever the context knows.
pub const EMPTY_STRING_HASH: u32 = 0x811c_9dc5;

/// One match: the value found and the byte offset of its window.
#[derive(Debug, PartialEq, Eq)]
pub struct ScannedHash<T> {
    pub offset: u64,
    pub hash: T,
}

impl<T: Copy> Copy for ScannedHash<T> {

}

impl<T: Copy> Clone for ScannedHash<T> {
    fn clone(&self) -> (r: Self)
        ensures
            r == *self,
    {
        *self
    }
}

/// An array header found in an entry: where it starts, how many elements it
/// announces and the class of its elements.
#[derive(Clone, Copy, Debug, PartialEq, Eq)]
pub struct ScannedArray {
    pub offset: u64,
    pub count: usize,
    pub class: u32,
}

/// What was found in one entry, each list in ascending offset order, and the
/// identifiers of the entries that refer to this one. A scan leaves
/// `references` empty; the reference transform fills it.
#[derive(Debug, PartialEq, Eq)]
pub struct ScanResult {
    pub file_hashes: Vec<ScannedHash<u32>>,
    pub file_hashes64: Vec<ScannedHash<u64>>,
    pub string_hashes: Vec<ScannedHash<u32>>,
    /// References from other files
    pub references: Vec<u32>,
}

/// The mathematical content of a [`ScanResult`].
pub struct ScanResultView {
    pub file_hashes: Seq<ScannedHash<u32>>,
    pub file_hashes64: Seq<ScannedHash<u64>>,
    pub string_hashes: Seq<ScannedHash<u32>>,
    pub references: Seq<u32>,
}

impl View for ScanResult {
    type V = ScanResultView;

    open spec fn view(&self) -> ScanResultView {
        ScanResultView {
            file_hashes: self.file_hashes@,
            file_hashes64: self.file_hashes64@,
            string_hashes: self.string_hashes@,
            references: self.references@,
        }
    }
}

impl ScanResultView {
    /// The result of scanning an entry in which nothing matches.
    pub open spec fn empty() -> ScanResultView {
        ScanResultView {
            file_hashes: Seq::empty(),
            file_hashes64: Seq::empty(),
            string_hashes: Seq::empty(),
            references: Seq::empty(),
        }
    }
}

impl Default for ScanResult {
    fn default() -> (r: ScanResult)
        ensures
            r@ == ScanResultView::empty(),
    {
        ScanResult {
            file_hashes: Vec::new(),
            file_hashes64: Vec::new(),
            string_hashes: Vec::new(),
            references: Vec::new(),
        }
    }
}

impl Clone for ScanResult {
    fn clone(&self) -> (r: ScanResult)
        ensures
            r@ == self@,
    {
        let r = ScanResult {
            file_hashes: self.file_hashes.clone(),
            file_hashes64: self.file_hashes64.clone(),
            string_hashes: self.string_hashes.clone(),
            references: self.references.clone(),
        };
        assert(r.file_hashes@ =~= self.file_hashes@);
        assert(r.file_hashes64@ =~= self.file_hashes64@);
        assert(r.string_hashes@ =~= self.string_hashes@);
        assert(r.references@ =~= self.references@);
        r
    }
}

/// The little-endian 32-bit value of the four bytes that start at `at`.
pub open spec fn word32(data: Seq<u8>, at: int) -> u32 {
    (data[at] + data[at + 1] * 0x100 + data[at + 2] * 0x1_0000 + data[at + 3] * 0x100_0000) as u32
}

/// The little-endian 64-bit value of the eight bytes that start at `at`.
pub open spec fn word64(data: Seq<u8>, at: int) -> u64 {
    (word32(data, at) + word32(data, at + 4) * 0x1_0000_0000) as u64
}

/// Every complete 4-byte window of `data`, in order, as offset and value.
/// Bytes behind the last complete window belong to none.
pub open spec fn windows32(data: Seq<u8>) -> Seq<ScannedHash<u32>> {
    Seq::new(
        (data.len() / 4) as nat,
        |i: int| ScannedHash { offset: (4 * i) as u64, hash: word32(data, 4 * i) },
    )
}

/// Every complete 8-byte window of `data`, in order, as offset and value.
pub open spec fn windows64(data: Seq<u8>) -> Seq<ScannedHash<u64>> {
    Seq::new(
        (data.len() / 8) as nat,
        |i: int| ScannedHash { offset: (8 * i) as u64, hash: word64(data, 8 * i) },
    )
}

/// What a scan of `data` finds: the windows of each stride that pass the
/// filter of their pass, in window order, and no references.
pub open spec fn scan_spec(universe: HashUniverse, data: Seq<u8>) -> ScanResultView {
    ScanResultView {
        file_hashes: windows32(data).filter(universe.file_filter()),
        file_hashes64: windows64(data).filter(universe.file64_filter()),
        string_hashes: windows32(data).filter(universe.string_filter()),
        references: Seq::empty(),
    }
}

/// Filtering the first `n + 1` elements keeps what filtering the first `n`
/// kept, and element `n` behind it if that passes.
pub proof fn lemma_filter_take_next<A>(s: Seq<A>, pred: spec_fn(A) -> bool, n: int)
    requires
        0 <= n < s.len(),
    ensures
        s.take(n + 1).filter(pred) == if pred(s[n]) {
            s.take(n).filter(pred).push(s[n])
        } else {
            s.take(n).filter(pred)
        },
{
    reveal(Seq::filter);
    assert(s.take(n + 1).drop_last() =~= s.take(n));
}

/// Scanning is a function of the bytes and of what the context holds: two
/// scans of the same bytes against contexts that hold the same values find the
/// same matches.
pub proof fn lemma_scan_deterministic(
    first: HashUniverse,
    second: HashUniverse,
    first_data: Seq<u8>,
    second_data: Seq<u8>,
)
    requires
        first_data =~= second_data,
        first.files =~= second.files,
        first.files64 =~= second.files64,
        first.strings =~= second.strings,
    ensures
        scan_spec(first, first_data) == scan_spec(second, second_data),
{
}

/// Every match of a scan sits on a window of its pass: its offset is a
/// multiple of the stride, the whole window lies inside the buffer, and the
/// value recorded is the value of that window and passes the filter.
pub proof fn lemma_matches_on_windows(universe: HashUniverse, data: Seq<u8>)
    requires
        data.len() <= u64::MAX,
    ensures
        forall|k: int|
            #![trigger scan_spec(universe, data).file_hashes[k]]
            0 <= k < scan_spec(universe, data).file_hashes.len() ==> {
                let found = scan_spec(universe, data).file_hashes[k];
                &&& found.offset % 4 == 0
                &&& found.offset + 4 <= data.len()
                &&& found.hash == word32(data, found.offset as int)
                &&& universe.is_file(found.hash)
            },
        forall|k: int|
            #![trigger scan_spec(universe, data).string_hashes[k]]
            0 <= k < scan_spec(universe, data).string_hashes.len() ==> {
                let found = scan_spec(universe, data).string_hashes[k];
                &&& found.offset % 4 == 0
                &&& found.offset + 4 <= data.len()
                &&& found.hash == word32(data, found.offset as int)
                &&& universe.is_string(found.hash)
            },
        forall|k: int|
            #![trigger scan_spec(universe, data).file_hashes64[k]]
            0 <= k < scan_spec(universe, data).file_hashes64.len() ==> {
                let found = scan_spec(universe, data).file_hashes64[k];
                &&& found.offset % 8 == 0
                &&& found.offset + 8 <= data.len()
                &&& found.hash == word64(data, found.offset as int)
                &&& universe.is_file64(found.hash)
            },
{
    let scan = scan_spec(universe, data);
    assert forall|k: int| 0 <= k < scan.file_hashes.len() implies {
        let found = #[trigger] scan.file_hashes[k];
        &&& found.offset % 4 == 0
        &&& found.offset + 4 <= data.len()
        &&& found.hash == word32(data, found.offset as int)
        &&& universe.is_file(found.hash)
    } by {
        let found = scan.file_hashes[k];
        windows32(data).lemma_filter_pred(universe.file_filter(), k);
        assert(scan.file_hashes.contains(found));
        windows32(data).lemma_filter_contains_rev(universe.file_filter(), found);
        let i = choose|i: int| 0 <= i < windows32(data).len() && windows32(data)[i] == found;
        assert(found.offset == 4 * i);
    }
    assert forall|k: int| 0 <= k < scan.string_hashes.len() implies {
        let found = #[trigger] scan.string_hashes[k];
        &&& found.offset % 4 == 0
        &&& found.offset + 4 <= data.len()
        &&& found.hash == word32(data, found.offset as int)
        &&& universe.is_string(found.hash)
    } by {
        let found = scan.string_hashes[k];
        windows32(data).lemma_filter_pred(universe.string_filter(), k);
        assert(scan.string_hashes.contains(found));
        windows32(data).lemma_filter_contains_rev(universe.string_filter(), found);
        let i = choose|i: int| 0 <= i < windows32(data).len() && windows32(data)[i] == found;
        assert(found.offset == 4 * i);
    }
    assert forall|k: int| 0 <= k < scan.file_hashes64.len() implies {
        let found = #[trigger] scan.file_hashes64[k];
        &&& found.offset % 8 == 0
        &&& found.offset + 8 <= data.len()
        &&& found.hash == word64(data, found.offset as int)
        &&& universe.is_file64(found.hash)
    } by {
        let found = scan.file_hashes64[k];
        windows64(data).lemma_filter_pred(universe.file64_filter(), k);
        assert(scan.file_hashes64.contains(found));
        windows64(data).lemma_filter_contains_rev(universe.file64_filter(), found);
        let i = choose|i: int| 0 <= i < windows64(data).len() && windows64(data)[i] == found;
        assert(found.offset == 8 * i);
    }
}

/// No window is missed: an aligned window that lies inside the buffer and
/// whose value passes the filter of a pass is among the matches of that pass.
pub proof fn lemma_windows_are_matched(universe: HashUniverse, data: Seq<u8>, at: int)
    requires
        data.len() <= u64::MAX,
        0 <= at,
    ensures
        at % 4 == 0 && at + 4 <= data.len() && universe.is_file(word32(data, at))
            ==> scan_spec(universe, data).file_hashes.contains(
            ScannedHash { offset: at as u64, hash: word32(data, at) },
        ),
        at % 4 == 0 && at + 4 <= data.len() && universe.is_string(word32(data, at))
            ==> scan_spec(universe, data).string_hashes.contains(
            ScannedHash { offset: at as u64, hash: word32(data, at) },
        ),
        at % 8 == 0 && at + 8 <= data.len() && universe.is_file64(word64(data, at))
            ==> scan_spec(universe, data).file_hashes64.contains(
            ScannedHash { offset: at as u64, hash: word64(data, at) },
        ),
{
    if at % 4 == 0 && at + 4 <= data.len() {
        let i = at / 4;
        let window = ScannedHash { offset: at as u64, hash: word32(data, at) };
        assert(windows32(data)[i] == window);
        if universe.is_file(word32(data, at)) {
            windows32(data).lemma_filter_contains(universe.file_filter(), i);
        }
        if universe.is_string(word32(data, at)) {
            windows32(data).lemma_filter_contains(universe.string_filter(), i);
        }
    }
    if at % 8 == 0 && at + 8 <= data.len() {
        let i = at / 8;
        let window = ScannedHash { offset: at as u64, hash: word64(data, at) };
        assert(windows64(data)[i] == window);
        if universe.is_file64(word64(data, at)) {
            windows64(data).lemma_filter_contains(universe.file64_filter(), i);
        }
    }
}

fn read_u32(data: &[u8], at: usize) -> (value: u32)
    requires
        at + 4 <= data@.len(),
    ensures
        value == word32(data@, at as int),
{
    let b0: u32 = data[at] as u32;
    let b1: u32 = data[at + 1] as u32;
    let b2: u32 = data[at + 2] as u32;
    let b3: u32 = data[at + 3] as u32;
    b0 + b1 * 0x100 + b2 * 0x1_0000 + b3 * 0x100_0000
}

fn read_u64(data: &[u8], at: usize) -> (value: u64)
    requires
        at + 8 <= data@.len(),
    ensures
        value == word64(data@, at as int),
{
    let _len: usize = data.len();
    let low: u64 = read_u32(data, at) as u64;
    let high: u64 = read_u32(data, at + 4) as u64;
    low + high * 0x1_0000_0000
}

/// Scans the bytes of one entry against the context.
pub fn scan_file(context: &ScannerContext, data: &[u8]) -> (r: ScanResult)
    ensures
        r@ == scan_spec(context@, data@),
{
    broadcast use group_hash_axioms;

    let mut r = ScanResult::default();
    let ghost universe = context@;
    let ghost w32 = windows32(data@);
    let ghost w64 = windows64(data@);

    let count32: usize = data.len() / 4;
    let mut i: usize = 0;
    while i < count32
        invariant
            i <= count32,
            count32 == data@.len() / 4,
            data@.len() <= usize::MAX,
            universe == context@,
            w32 == windows32(data@),
            r.file_hashes@ == w32.take(i as int).filter(universe.file_filter()),
            r.string_hashes@ == w32.take(i as int).filter(universe.string_filter()),
            r.file_hashes64@ == Seq::<ScannedHash<u64>>::empty(),
            r.references@ == Seq::<u32>::empty(),
        decreases count32 - i,
    {
        let at: usize = i * 4;
        let value: u32 = read_u32(data, at);
        let offset: u64 = at as u64;
        proof {
            assert(w32[i as int] == ScannedHash { offset, hash: value });
            lemma_filter_take_next(w32, universe.file_filter(), i as int);
            lemma_filter_take_next(w32, universe.string_filter(), i as int);
        }
        if tag_is_pkg_file(value) && set_contains(&context.valid_file_hashes, &value) {
            r.file_hashes.push(ScannedHash { offset, hash: value });
        }
        if value == EMPTY_STRING_HASH || set_contains(&context.known_string_hashes, &value) {
            r.string_hashes.push(ScannedHash { offset, hash: value });
        }
        i += 1;
    }
    assert(w32.take(count32 as int) =~= w32);

    let count64: usize = data.len() / 8;
    let mut j: usize = 0;
    while j < count64
        invariant
            j <= count64,
            count64 == data@.len() / 8,
            data@.len() <= usize::MAX,
            universe == context@,
            w64 == windows64(data@),
            r.file_hashes@ == windows32(data@).filter(universe.file_filter()),
            r.string_hashes@ == windows32(data@).filter(universe.string_filter()),
            r.file_hashes64@ == w64.take(j as int).filter(universe.file64_filter()),
            r.references@ == Seq::<u32>::empty(),
        decreases count64 - j,
    {
        let at: usize = j * 8;
        let value: u64 = read_u64(data, at);
        let offset: u64 = at as u64;
        proof {
            assert(w64[j as int] == ScannedHash { offset, hash: value });
            lemma_filter_take_next(w64, universe.file64_filter(), j as int);
        }
        if set_contains(&context.valid_file_hashes64, &value) {
            r.file_hashes64.push(ScannedHash { offset, hash: value });
        }
        j += 1;
    }
    assert(w64.take(count64 as int) =~= w64);
    r
}

} // verus!
