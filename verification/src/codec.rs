//! The stored form of the group cache: its entries, in their order, as CBOR.
//!
//! An entry is stored as `[[x, y], [[origin_x, origin_y], shape_id]]` with
//! every number as a 64-bit unsigned integer, so that a cache reads the same
//! on every machine.

use vstd::prelude::*;
use crate::cache::{entries_model, fits_key, CacheEntry, CacheModel, GroupCache};
use crate::cells::Coord;

verus! {

/// An entry of the cache with its numbers widened to 64 bits.
pub type WideEntry = ((u64, u64), ((u64, u64), u64));

/// The error type of the CBOR crate, `serde_cbor::Error`. Nothing is claimed
/// of its values; it is mapped to `CodecError` as soon as it appears.
#[verifier::external_type_specification]
#[verifier::external_body]
pub struct ExCborError(serde_cbor::Error);

/// The bytes that `serde_cbor::to_vec` gives for a list of entries.
pub uninterp spec fn cbor_encoding(entries: Seq<WideEntry>) -> Seq<u8>;

/// The list of entries that `serde_cbor::from_slice` reads from the bytes,
/// where it reads one.
pub uninterp spec fn cbor_decoding(bytes: Seq<u8>) -> Option<Seq<WideEntry>>;

/// Calls `serde_cbor::to_vec` on the list of entries. The contract claims
/// three things of it. It succeeds: the list is written as arrays of
/// unsigned integers into a vector, and neither the integers nor the vector
/// can refuse. The bytes depend on the entries alone: they are named
/// `cbor_encoding`. And `serde_cbor::from_slice` reads the list back from
/// them: each integer is written with its value and each array with its
/// length, which is how they are read.
#[verifier::external_body]
fn cbor_to_vec(entries: &Vec<WideEntry>) -> (r: Result<Vec<u8>, serde_cbor::Error>)
    ensures
        match r {
            Ok(bytes) => bytes@ == cbor_encoding(entries@) && cbor_decoding(bytes@) == Some(
                entries@,
            ),
            Err(_) => false,
        },
{
    serde_cbor::to_vec(entries)
}

/// Calls `serde_cbor::from_slice` to read a list of entries. The contract
/// claims no more than that the outcome depends on the bytes alone: the
/// list is named `cbor_decoding`, and an error is where that has no value.
#[verifier::external_body]
fn cbor_from_slice(bytes: &[u8]) -> (r: Result<Vec<WideEntry>, serde_cbor::Error>)
    ensures
        match r {
            Ok(entries) => cbor_decoding(bytes@) == Some(entries@),
            Err(_) => cbor_decoding(bytes@) is None,
        },
{
    serde_cbor::from_slice(bytes)
}

/// Why a cache cannot be stored or read.
#[derive(Debug, Clone, Copy, PartialEq, Eq, Structural)]
pub enum CodecError {
    /// The bytes are no list of entries.
    Malformed,
    /// Entry `index` holds a cell that has no 64-bit key, or a number that
    /// this machine cannot address.
    TooLarge { index: usize },
}

/// An entry with its numbers widened.
pub open spec fn widen(e: (Coord, CacheEntry)) -> WideEntry {
    ((e.0.0 as u64, e.0.1 as u64), ((e.1.0.0 as u64, e.1.0.1 as u64), e.1.1 as u64))
}

/// Whether a wide entry fits an entry of the cache on this machine.
pub open spec fn narrows(e: WideEntry) -> bool {
    &&& e.0.0 <= u32::MAX
    &&& e.0.1 <= u32::MAX
    &&& e.1.0.0 <= usize::MAX
    &&& e.1.0.1 <= usize::MAX
    &&& e.1.1 <= usize::MAX
}

/// A wide entry as an entry of the cache.
pub open spec fn narrow(e: WideEntry) -> (Coord, CacheEntry) {
    ((e.0.0 as usize, e.0.1 as usize), ((e.1.0.0 as usize, e.1.0.1 as usize), e.1.1 as usize))
}

/// The entries of a cache, in its order.
pub open spec fn model_entries(m: CacheModel) -> Seq<(Coord, CacheEntry)> {
    Seq::new(m.order.len(), |j: int| (m.order[j], m.map[m.order[j]]))
}

/// The entries of the cache, widened, in the order in which their cells
/// were first entered.
pub fn cache_to_wide(cache: &GroupCache) -> (r: Vec<WideEntry>)
    requires
        cache.wf(),
    ensures
        r@ == wide_entries(cache@),
{
    let entries = cache.entries();
    let mut out: Vec<WideEntry> = Vec::new();
    let mut i: usize = 0;
    while i < entries.len()
        invariant
            i <= entries@.len(),
            out@.len() == i,
            forall|j: int| 0 <= j < i ==> out@[j] == widen(entries@[j]),
        decreases entries.len() - i,
    {
        let e = entries[i];
        out.push(((e.0.0 as u64, e.0.1 as u64), ((e.1.0.0 as u64, e.1.0.1 as u64), e.1.1 as u64)));
        i = i + 1;
    }
    proof {
        assert(entries@ =~= model_entries(cache@));
        assert(out@ =~= model_entries(cache@).map_values(|e: (Coord, CacheEntry)| widen(e)));
    }
    out
}

/// The first wide entry that does not fit, if there is one.
pub open spec fn first_too_large(entries: Seq<WideEntry>, n: int) -> Option<int>
    decreases n,
{
    if n <= 0 {
        None
    } else {
        match first_too_large(entries, n - 1) {
            Some(i) => Some(i),
            None => if narrows(entries[n - 1]) {
                None
            } else {
                Some(n - 1)
            },
        }
    }
}

/// The cache that a list of wide entries stands for: the entries are
/// entered one after the other. The first entry that does not fit is the
/// error.
pub open spec fn wide_model(entries: Seq<WideEntry>) -> Result<CacheModel, CodecError> {
    match first_too_large(entries, entries.len() as int) {
        Some(i) => Err(CodecError::TooLarge { index: i as usize }),
        None => Ok(entries_model(entries.map_values(|e: WideEntry| narrow(e)))),
    }
}

/// An entry that does not fit among the first `k` is the first of them all.
pub proof fn lemma_first_too_large(entries: Seq<WideEntry>, k: int, n: int)
    requires
        0 <= k <= n,
        first_too_large(entries, k) is Some,
    ensures
        first_too_large(entries, n) == first_too_large(entries, k),
    decreases n,
{
    if k < n {
        lemma_first_too_large(entries, k, n - 1);
    }
}

/// The cache that a list of wide entries stands for: see `wide_model`.
pub fn cache_from_wide(entries: &Vec<WideEntry>) -> (r: Result<GroupCache, CodecError>)
    ensures
        match r {
            Ok(cache) => cache.wf() && wide_model(entries@) == Ok::<CacheModel, CodecError>(cache@),
            Err(e) => wide_model(entries@) == Err::<CacheModel, CodecError>(e),
        },
{
    let ghost narrowed = entries@.map_values(|e: WideEntry| narrow(e));
    let mut cache = GroupCache::new();
    let mut i: usize = 0;
    assert(narrowed.take(0) =~= Seq::<(Coord, CacheEntry)>::empty());
    while i < entries.len()
        invariant
            i <= entries@.len(),
            narrowed == entries@.map_values(|e: WideEntry| narrow(e)),
            cache.wf(),
            first_too_large(entries@, i as int) is None,
            cache@ == entries_model(narrowed.take(i as int)),
        decreases entries.len() - i,
    {
        let e = entries[i];
        let fits = e.0.0 <= 0xffff_ffff && e.0.1 <= 0xffff_ffff && e.1.0.0 <= usize::MAX as u64
            && e.1.0.1 <= usize::MAX as u64 && e.1.1 <= usize::MAX as u64;
        if !fits {
            proof {
                lemma_first_too_large(entries@, i as int + 1, entries@.len() as int);
            }
            return Err(CodecError::TooLarge { index: i });
        }
        cache.insert(
            e.0.0 as usize,
            e.0.1 as usize,
            ((e.1.0.0 as usize, e.1.0.1 as usize), e.1.1 as usize),
        );
        proof {
            let next = narrowed.take(i + 1);
            assert(next.drop_last() =~= narrowed.take(i as int));
            assert(next.last() == narrow(e));
        }
        i = i + 1;
    }
    proof {
        assert(narrowed.take(entries@.len() as int) =~= narrowed);
    }
    Ok(cache)
}

/// The widened entries of a cache.
pub open spec fn wide_entries(m: CacheModel) -> Seq<WideEntry> {
    model_entries(m).map_values(|e: (Coord, CacheEntry)| widen(e))
}

/// The cache that is read from the bytes: they are decoded into a list of
/// wide entries, which `wide_model` turns into a cache.
pub open spec fn decoded_cache(bytes: Seq<u8>) -> Result<CacheModel, CodecError> {
    match cbor_decoding(bytes) {
        None => Err(CodecError::Malformed),
        Some(entries) => wide_model(entries),
    }
}

/// The cache that results from entering the first `k` entries of a cache,
/// in its order, holds these entries in that order.
pub proof fn lemma_entries_model(m: CacheModel, k: int)
    requires
        m.order.no_duplicates(),
        forall|c: Coord| m.order.contains(c) <==> m.map.contains_key(c),
        0 <= k <= m.order.len(),
    ensures
        entries_model(model_entries(m).take(k)).order == m.order.take(k),
        forall|c: Coord|
            #[trigger] entries_model(model_entries(m).take(k)).get(c) == (if m.order.take(
                k,
            ).contains(c) {
                m.get(c)
            } else {
                None
            }),
    decreases k,
{
    let entries = model_entries(m);
    let now = entries_model(entries.take(k));
    if k > 0 {
        lemma_entries_model(m, k - 1);
        let before = entries_model(entries.take(k - 1));
        let seen = m.order.take(k - 1);
        let key = m.order[k - 1];
        assert(entries.take(k).drop_last() =~= entries.take(k - 1));
        assert(entries.take(k).last() == entries[k - 1]);
        assert(now == before.insert(key, m.map[key]));
        assert(m.order.contains(key));
        assert(!seen.contains(key)) by {
            if seen.contains(key) {
                let j = choose|j: int| 0 <= j < seen.len() && seen[j] == key;
                assert(m.order[j] == m.order[k - 1]);
            }
        }
        assert(before.get(key) is None);
        assert(m.order.take(k) =~= seen.push(key));
        assert forall|c: Coord| #[trigger] now.get(c) == (if m.order.take(k).contains(c) {
            m.get(c)
        } else {
            None
        }) by {
            assert(before.get(c) == (if seen.contains(c) {
                m.get(c)
            } else {
                None
            }));
            if seen.contains(c) {
                let j = choose|j: int| 0 <= j < seen.len() && seen[j] == c;
                assert(m.order.take(k)[j] == c);
            }
            if m.order.take(k).contains(c) && c != key {
                let j = choose|j: int| 0 <= j < k && m.order.take(k)[j] == c;
                assert(seen[j] == c);
            }
            if c == key {
                assert(m.order.take(k)[k - 1] == key);
            }
        }
    } else {
        assert(entries.take(0) =~= Seq::<(Coord, CacheEntry)>::empty());
        assert(m.order.take(0) =~= Seq::<Coord>::empty());
    }
}

/// No wide entry among the first `n` fails to fit, where all of them fit.
pub proof fn lemma_all_narrow(entries: Seq<WideEntry>, n: int)
    requires
        0 <= n <= entries.len(),
        forall|i: int| 0 <= i < entries.len() ==> narrows(#[trigger] entries[i]),
    ensures
        first_too_large(entries, n) is None,
    decreases n,
{
    if n > 0 {
        lemma_all_narrow(entries, n - 1);
    }
}

/// The entries of a cache, widened and turned into a cache again, are the
/// cache.
pub proof fn lemma_wide_round_trip(cache: &GroupCache)
    requires
        cache.wf(),
    ensures
        wide_model(wide_entries(cache@)) == Ok::<CacheModel, CodecError>(cache@),
{
    let m = cache@;
    let entries = model_entries(m);
    let wide = wide_entries(m);
    cache.lemma_order();
    assert forall|i: int| 0 <= i < wide.len() implies narrows(#[trigger] wide[i]) by {
        assert(m.order.contains(m.order[i]));
        assert(fits_key(entries[i].0));
    }
    lemma_all_narrow(wide, wide.len() as int);
    assert(wide.map_values(|e: WideEntry| narrow(e)) =~= entries) by {
        assert forall|i: int| 0 <= i < entries.len() implies narrow(widen(entries[i]))
            == entries[i] by {
            assert(m.order.contains(m.order[i]));
        }
    }
    lemma_entries_model(m, m.order.len() as int);
    assert(entries.take(entries.len() as int) =~= entries);
    assert(m.order.take(m.order.len() as int) =~= m.order);
    let back = entries_model(entries);
    assert(back.map =~= m.map) by {
        assert forall|c: Coord| back.map.contains_key(c) <==> m.map.contains_key(c) by {
            assert(back.get(c) == (if m.order.contains(c) {
                m.get(c)
            } else {
                None
            }));
        }
        assert forall|c: Coord| back.map.contains_key(c) implies back.map[c] == m.map[c] by {
            assert(back.get(c) == (if m.order.contains(c) {
                m.get(c)
            } else {
                None
            }));
        }
    }
}

/// The stored form of the cache: the encoding of its widened entries.
/// Reading it gives the cache back.
pub fn encode_cache(cache: &GroupCache) -> (bytes: Vec<u8>)
    requires
        cache.wf(),
    ensures
        bytes@ == cbor_encoding(wide_entries(cache@)),
        decoded_cache(bytes@) == Ok::<CacheModel, CodecError>(cache@),
{
    let wide = cache_to_wide(cache);
    proof {
        lemma_wide_round_trip(cache);
    }
    match cbor_to_vec(&wide) {
        Ok(bytes) => bytes,
        Err(_) => {
            assert(false);
            Vec::new()
        },
    }
}

/// Reads a cache from its stored form: see `decoded_cache`.
pub fn decode_cache(bytes: &[u8]) -> (r: Result<GroupCache, CodecError>)
    ensures
        match r {
            Ok(cache) => cache.wf() && decoded_cache(bytes@) == Ok::<CacheModel, CodecError>(
                cache@,
            ),
            Err(e) => decoded_cache(bytes@) == Err::<CacheModel, CodecError>(e),
        },
{
    match cbor_from_slice(bytes) {
        Err(_) => Err(CodecError::Malformed),
        Ok(entries) => cache_from_wide(&entries),
    }
}

} // verus!
