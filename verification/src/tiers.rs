//! The outside collections under the cache: the lru crate's, which keeps the
//! order of access, and the moka crate's, which keeps bytes in memory.

use std::sync::Arc;
use vstd::prelude::*;
use vstd::string::*;
use crate::text::text_views;

verus! {

/// The cache of the lru crate.
#[verifier::external_type_specification]
#[verifier::external_body]
#[verifier::reject_recursive_types(K)]
#[verifier::reject_recursive_types(V)]
#[verifier::reject_recursive_types(S)]
pub struct ExLruCache<K, V, S>(lru::LruCache<K, V, S>);

/// The hasher of the lru crate's cache.
#[verifier::external_type_specification]
#[verifier::external_body]
pub struct ExLruHasher(lru::DefaultHasher);

/// The cache of the moka crate.
#[verifier::external_type_specification]
#[verifier::external_body]
#[verifier::reject_recursive_types(K)]
#[verifier::reject_recursive_types(V)]
#[verifier::reject_recursive_types(S)]
pub struct ExCache<K, V, S>(moka::sync::Cache<K, V, S>);

/// The entries of an lru cache, from the least to the most recently used.
pub uninterp spec fn lru_order(c: lru::LruCache<String, usize>) -> Seq<(Seq<char>, usize)>;

/// The most entries that an lru cache was made for, as `lru::LruCache::cap` tells.
/// One that was made without a limit has the greatest number there is.
pub uninterp spec fn lru_limit(c: lru::LruCache<String, usize>) -> usize;

/// The entries without those of a key.
pub open spec fn without_key(order: Seq<(Seq<char>, usize)>, key: Seq<char>) -> Seq<(Seq<char>, usize)>
    decreases order.len(),
{
    if order.len() == 0 {
        Seq::empty()
    } else {
        let prev = without_key(order.drop_last(), key);
        if order.last().0 == key {
            prev
        } else {
            prev.push(order.last())
        }
    }
}

/// The value of a key.
pub open spec fn value_in(order: Seq<(Seq<char>, usize)>, key: Seq<char>) -> Option<usize>
    decreases order.len(),
{
    if order.len() == 0 {
        None
    } else if order.last().0 == key {
        Some(order.last().1)
    } else {
        value_in(order.drop_last(), key)
    }
}

/// `lru::LruCache::unbounded`: a cache without entries and without a limit.
#[verifier::external_body]
pub(crate) fn lru_new() -> (r: lru::LruCache<String, usize>)
    ensures
        lru_order(r).len() == 0,
        lru_limit(r) == usize::MAX,
{
    lru::LruCache::unbounded()
}

/// `lru::LruCache::put` on a cache without a limit, which drops no entry by
/// itself: the key has the value and is the most recently used; the order of the
/// others stays. Gives the value that the key had.
#[verifier::external_body]
pub(crate) fn lru_put(c: &mut lru::LruCache<String, usize>, key: String, value: usize) -> (r: Option<usize>)
    requires
        lru_limit(*old(c)) == usize::MAX,
    ensures
        lru_order(*final(c)) == without_key(lru_order(*old(c)), key@).push((key@, value)),
        lru_limit(*final(c)) == lru_limit(*old(c)),
        r == value_in(lru_order(*old(c)), key@),
{
    c.put(key, value)
}

/// `lru::LruCache::pop`: the key is out, the order of the others stays. Gives the
/// value that the key had.
#[verifier::external_body]
pub(crate) fn lru_pop(c: &mut lru::LruCache<String, usize>, key: &str) -> (r: Option<usize>)
    ensures
        lru_order(*final(c)) == without_key(lru_order(*old(c)), key@),
        lru_limit(*final(c)) == lru_limit(*old(c)),
        r == value_in(lru_order(*old(c)), key@),
{
    c.pop(key)
}

/// `lru::LruCache::pop_lru`: takes out the least recently used entry, where
/// there is one.
#[verifier::external_body]
pub(crate) fn lru_pop_lru(c: &mut lru::LruCache<String, usize>) -> (r: Option<(String, usize)>)
    ensures
        match r {
            Some((key, value)) => lru_order(*old(c)).len() > 0 && (key@, value) == lru_order(*old(c))[0]
                && lru_order(*final(c)) == lru_order(*old(c)).drop_first(),
            None => lru_order(*old(c)).len() == 0 && lru_order(*final(c)) == lru_order(*old(c)),
        },
        lru_limit(*final(c)) == lru_limit(*old(c)),
{
    c.pop_lru()
}

/// What a moka cache may give back: for each key the value that it got last,
/// unless it was taken out. The cache drops entries at times of its own, so it
/// may have less.
pub uninterp spec fn held(c: moka::sync::Cache<String, Arc<Vec<u8>>>) -> Map<Seq<char>, Seq<u8>>;

/// The limit that a moka cache was made with, as the policy that
/// `moka::sync::Cache::policy` gives tells by `max_capacity`.
pub uninterp spec fn cache_limit(c: moka::sync::Cache<String, Arc<Vec<u8>>>) -> u64;

/// The bytes of all values that were ever put into a moka cache, which its count
/// of bytes does not exceed.
pub uninterp spec fn cache_given(c: moka::sync::Cache<String, Arc<Vec<u8>>>) -> nat;

/// Nothing for any key.
pub open spec fn no_bytes() -> Map<Seq<char>, Seq<u8>> {
    Map::empty()
}

/// The weight of a value: its length.
pub fn weight_of(value: &Vec<u8>) -> (r: u32)
    ensures
        r == value@.len() as u32,
{
    #[verifier::truncate]
    let w: u32 = value.len() as u32;
    w
}

/// `moka::sync::Cache::builder` with a weight for each value and a limit on all
/// of them, then `build`: a cache without entries, made with that limit. That the
/// entries are within the limit at each moment is not claimed: the crate drops
/// entries in its own time.
#[verifier::external_body]
pub(crate) fn cache_new(max_bytes: u64) -> (r: moka::sync::Cache<String, Arc<Vec<u8>>>)
    ensures
        held(r) == no_bytes(),
        cache_limit(r) == max_bytes,
        cache_given(r) == 0,
{
    moka::sync::Cache::builder()
        .max_capacity(max_bytes)
        .weigher(|_key: &String, value: &Arc<Vec<u8>>| weight_of(value))
        .build()
}

/// `moka::sync::Cache::get`: a copy of the key's value, where the cache still has
/// it. A cache with a limit of zero gives nothing.
#[verifier::external_body]
pub(crate) fn cache_get(c: &moka::sync::Cache<String, Arc<Vec<u8>>>, key: &str) -> (r: Option<Vec<u8>>)
    ensures
        r matches Some(v) ==> held(*c).contains_key(key@) && held(*c)[key@] == v@,
        cache_limit(*c) == 0 ==> r is None,
{
    c.get(key).map(|v| v.to_vec())
}

/// `moka::sync::Cache::insert`: the key has the value from now on, if it has one.
#[verifier::external_body]
pub(crate) fn cache_insert(c: &mut moka::sync::Cache<String, Arc<Vec<u8>>>, key: String, value: Vec<u8>)
    ensures
        held(*final(c)) == held(*old(c)).insert(key@, value@),
        cache_limit(*final(c)) == cache_limit(*old(c)),
        cache_given(*final(c)) == cache_given(*old(c)) + value@.len(),
{
    c.insert(key, Arc::new(value))
}

/// `moka::sync::Cache::invalidate`: the key has no value any more.
#[verifier::external_body]
pub(crate) fn cache_invalidate(c: &mut moka::sync::Cache<String, Arc<Vec<u8>>>, key: &str)
    ensures
        held(*final(c)) == held(*old(c)).remove(key@),
        cache_limit(*final(c)) == cache_limit(*old(c)),
        cache_given(*final(c)) == cache_given(*old(c)),
{
    c.invalidate(key)
}

/// `moka::sync::Cache::iter`: visits all entries that the cache has, of which the
/// keys are taken. What was not visited has been dropped, and is not given back
/// any more.
#[verifier::external_body]
pub(crate) fn cache_keys(c: &mut moka::sync::Cache<String, Arc<Vec<u8>>>) -> (r: Vec<String>)
    ensures
        forall|k: Seq<char>|
            #[trigger] held(*final(c)).contains_key(k) <==> held(*old(c)).contains_key(k) && text_views(
                r@,
            ).contains(k),
        forall|k: Seq<char>|
            #[trigger] held(*final(c)).contains_key(k) ==> held(*final(c))[k] == held(*old(c))[k],
        cache_limit(*final(c)) == cache_limit(*old(c)),
        cache_given(*final(c)) == cache_given(*old(c)),
{
    c.iter().map(|(k, _)| (*k).clone()).collect()
}

/// `moka::sync::Cache::weighted_size`: about how many bytes the cache holds. The
/// crate's count lags behind. Each value adds no more than its own weight, so the
/// count is at most the bytes that were ever put in; a cache with a limit of zero
/// counts nothing.
#[verifier::external_body]
pub(crate) fn cache_weight(c: &moka::sync::Cache<String, Arc<Vec<u8>>>) -> (r: u64)
    ensures
        r <= cache_given(*c),
        cache_limit(*c) == 0 ==> r == 0,
{
    c.weighted_size()
}

} // verus!
