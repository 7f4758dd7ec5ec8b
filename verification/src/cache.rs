//! Bounded caches of what is known of blocks, kept by the `lru` crate.

use vstd::prelude::*;
use lru::LruCache;

verus! {

/// The cache type of the `lru` crate.
#[verifier::external_type_specification]
#[verifier::external_body]
#[verifier::reject_recursive_types(K)]
#[verifier::reject_recursive_types(V)]
#[verifier::reject_recursive_types(S)]
pub struct ExLruCache<K, V, S>(LruCache<K, V, S>);

/// The hasher that the `lru` crate uses where none is named.
#[verifier::external_type_specification]
#[verifier::external_body]
pub struct ExDefaultHasher(lru::DefaultHasher);

/// A cache from bytes to bytes.
pub type ByteCache = LruCache<Vec<u8>, Vec<u8>>;

/// What a cache holds: the value of each key that is in it.
pub uninterp spec fn cache_entries(cache: ByteCache) -> Map<Seq<u8>, Seq<u8>>;

/// The most entries that a cache holds: the capacity that it was made with.
pub uninterp spec fn cache_limit(cache: ByteCache) -> nat;

/// The cache holds no more entries than it was made for.
pub open spec fn cache_bounded(cache: ByteCache) -> bool {
    cache_entries(cache).dom().finite() && cache_entries(cache).dom().len() <= cache_limit(cache)
}

/// Calls `LruCache::new` with the capacity given.
///
/// Trusted: the new cache holds nothing, and is made to hold at most as many
/// entries as the capacity says.
#[verifier::external_body]
pub(crate) fn cache_new(capacity: usize) -> (r: ByteCache)
    requires
        capacity > 0,
    ensures
        forall|k: Seq<u8>| !cache_entries(r).contains_key(k),
        cache_limit(r) == capacity,
{
    LruCache::new(core::num::NonZeroUsize::new(capacity).unwrap())
}

/// Calls `LruCache::put`.
///
/// Trusted: afterwards the key is in the cache with the value given. To make
/// room the cache may have dropped other entries; those that stay are as they
/// were. The cache never holds more entries than it was made for.
#[verifier::external_body]
pub(crate) fn cache_put(cache: &mut ByteCache, key: &[u8], value: Vec<u8>)
    ensures
        cache_limit(*final(cache)) == cache_limit(*old(cache)),
        cache_bounded(*final(cache)),
        cache_entries(*final(cache)).contains_key(key@),
        cache_entries(*final(cache))[key@] == value@,
        forall|k: Seq<u8>|
            k != key@ && #[trigger] cache_entries(*final(cache)).contains_key(k) ==> cache_entries(
                *old(cache),
            ).contains_key(k) && cache_entries(*final(cache))[k] == cache_entries(*old(cache))[k],
{
    cache.put(key.to_vec(), value);
}

/// Calls `LruCache::get` and copies the value out.
///
/// Trusted: the value is the one held for the key, if there is one, and the
/// cache holds what it held. (The call marks the entry as used last.)
#[verifier::external_body]
pub(crate) fn cache_get(cache: &mut ByteCache, key: &[u8]) -> (r: Option<Vec<u8>>)
    ensures
        cache_limit(*final(cache)) == cache_limit(*old(cache)),
        cache_entries(*final(cache)) == cache_entries(*old(cache)),
        r is Some <==> cache_entries(*old(cache)).contains_key(key@),
        r matches Some(value) ==> value@ == cache_entries(*old(cache))[key@],
{
    cache.get(key).cloned()
}

/// Calls `LruCache::contains`.
///
/// Trusted: it tells whether the key is in the cache.
#[verifier::external_body]
pub(crate) fn cache_contains(cache: &ByteCache, key: &[u8]) -> (r: bool)
    ensures
        r == cache_entries(*cache).contains_key(key@),
{
    cache.contains(key)
}

/// Calls `LruCache::pop` and drops what it returns.
///
/// Trusted: afterwards the key is not in the cache, and nothing else changed.
#[verifier::external_body]
pub(crate) fn cache_pop(cache: &mut ByteCache, key: &[u8])
    ensures
        cache_limit(*final(cache)) == cache_limit(*old(cache)),
        cache_entries(*final(cache)) == cache_entries(*old(cache)).remove(key@),
{
    cache.pop(key);
}

} // verus!
