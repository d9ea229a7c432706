//! Which headers were verified lately: a cache of the `lru` crate.
use core::num::NonZeroUsize;

use lru::LruCache;
use vstd::prelude::*;

use crate::refs::Digest;
use crate::unordered::ItemKey;

verus! {

/// `lru::LruCache`, a map of bounded size that drops what was not used for the
/// longest time.
#[verifier::external_type_specification]
#[verifier::external_body]
#[verifier::reject_recursive_types(K)]
#[verifier::reject_recursive_types(V)]
#[verifier::reject_recursive_types(S)]
pub struct ExLruCache<K, V, S>(LruCache<K, V, S>);

/// `std::hash::BuildHasherDefault`, of which `lru::DefaultHasher` is one.
#[verifier::external_type_specification]
#[verifier::external_body]
#[verifier::reject_recursive_types(H)]
pub struct ExBuildHasherDefault<H>(core::hash::BuildHasherDefault<H>);

/// `ahash::AHasher`, the hasher in `lru::DefaultHasher`.
#[verifier::external_type_specification]
#[verifier::external_body]
pub struct ExAHasher(ahash::AHasher);

/// The keys in a cache, the one used last first.
pub uninterp spec fn cached_keys(c: LruCache<ItemKey, (), lru::DefaultHasher>) -> Seq<ItemKey>;

/// How many keys a cache holds at most.
pub uninterp spec fn cache_limit(c: LruCache<ItemKey, (), lru::DefaultHasher>) -> nat;

/// How many headers are remembered as verified.
pub const VERIFIED_HEADERS_CACHE_CAP: usize = 200_000;

/// The keys once one of them is used.
pub open spec fn used(keys: Seq<ItemKey>, key: ItemKey) -> Seq<ItemKey> {
    if keys.contains(key) {
        seq![key] + keys.remove(keys.index_of(key))
    } else {
        keys
    }
}

/// The keys once one is put in, with room for `limit` of them.
pub open spec fn added(keys: Seq<ItemKey>, key: ItemKey, limit: nat) -> Seq<ItemKey> {
    if keys.contains(key) {
        used(keys, key)
    } else if keys.len() == limit {
        seq![key] + keys.drop_last()
    } else {
        seq![key] + keys
    }
}

/// A cache without keys, for at most `cap` of them. Calls `LruCache::new`.
#[verifier::external_body]
pub(crate) fn new_cache(cap: usize) -> (r: LruCache<ItemKey, ()>)
    requires
        0 < cap <= VERIFIED_HEADERS_CACHE_CAP,
    ensures
        cached_keys(r) == Seq::<ItemKey>::empty(),
        cache_limit(r) == cap,
{
    LruCache::new(NonZeroUsize::new(cap).unwrap())
}

/// Is the key in the cache? If so, it is now the one used last. Calls
/// `LruCache::get`.
#[verifier::external_body]
pub(crate) fn use_key(c: &mut LruCache<ItemKey, ()>, key: &ItemKey) -> (r: bool)
    ensures
        r == cached_keys(*old(c)).contains(*key),
        cached_keys(*final(c)) == used(cached_keys(*old(c)), *key),
        cache_limit(*final(c)) == cache_limit(*old(c)),
{
    c.get(key).is_some()
}

/// Puts a key in the cache, as the one used last. Where the cache is full, the
/// key leaves that was not used for the longest time. Calls `LruCache::put`.
#[verifier::external_body]
pub(crate) fn put_key(c: &mut LruCache<ItemKey, ()>, key: ItemKey)
    ensures
        cached_keys(*final(c)) == added(cached_keys(*old(c)), key, cache_limit(*old(c))),
        cache_limit(*final(c)) == cache_limit(*old(c)),
{
    c.put(key, ());
}

/// Removes all keys. Calls `LruCache::clear`.
#[verifier::external_body]
pub(crate) fn clear_keys(c: &mut LruCache<ItemKey, ()>)
    ensures
        cached_keys(*final(c)) == Seq::<ItemKey>::empty(),
        cache_limit(*final(c)) == cache_limit(*old(c)),
{
    c.clear();
}

/// The number of keys. Calls `LruCache::len`.
#[verifier::external_body]
pub(crate) fn count_keys(c: &LruCache<ItemKey, ()>) -> (r: usize)
    ensures
        r == cached_keys(*c).len(),
{
    c.len()
}

/// The key of a digest.
pub open spec fn digest_key(d: Digest) -> ItemKey {
    (d.hi, d.lo)
}

/// Which headers were verified lately, by their digests.
pub struct VerifiedHeaders {
    pub cache: LruCache<ItemKey, ()>,
}

impl VerifiedHeaders {
    /// The digests' keys, the one used last first.
    pub open spec fn view(self) -> Seq<ItemKey> {
        cached_keys(self.cache)
    }

    /// How many digests are kept at most.
    pub open spec fn limit(self) -> nat {
        cache_limit(self.cache)
    }

    pub open spec fn wf(self) -> bool {
        &&& self@.no_duplicates()
        &&& self.limit() > 0
        &&& self@.len() <= self.limit()
    }

    pub fn new(cap: usize) -> (r: Self)
        requires
            0 < cap <= VERIFIED_HEADERS_CACHE_CAP,
        ensures
            r.wf(),
            r.limit() == cap,
            r@ == Seq::<ItemKey>::empty(),
    {
        VerifiedHeaders { cache: new_cache(cap) }
    }

    /// Was the header with this digest verified lately?
    pub fn check(&mut self, digest: &Digest) -> (r: bool)
        requires
            old(self).wf(),
        ensures
            final(self).wf(),
            final(self).limit() == old(self).limit(),
            r == old(self)@.contains(digest_key(*digest)),
            final(self)@ == used(old(self)@, digest_key(*digest)),
    {
        let key = (digest.hi, digest.lo);
        proof {
            lemma_used(self@, key);
        }
        use_key(&mut self.cache, &key)
    }

    /// Remembers the header with this digest.
    pub fn remember(&mut self, digest: &Digest)
        requires
            old(self).wf(),
        ensures
            final(self).wf(),
            final(self).limit() == old(self).limit(),
            final(self)@ == added(old(self)@, digest_key(*digest), old(self).limit()),
    {
        let key = (digest.hi, digest.lo);
        proof {
            lemma_used(self@, key);
            let keys = self@;
            if !keys.contains(key) {
                assert(forall|i: int| 0 <= i < keys.len() ==> keys[i] != key);
            }
        }
        put_key(&mut self.cache, key);
    }

    /// Forgets all headers.
    pub fn clear(&mut self)
        requires
            old(self).wf(),
        ensures
            final(self).wf(),
            final(self).limit() == old(self).limit(),
            final(self)@ == Seq::<ItemKey>::empty(),
    {
        clear_keys(&mut self.cache);
    }

    /// How many headers are remembered.
    pub fn len(&self) -> (r: usize)
        requires
            self.wf(),
        ensures
            r == self@.len(),
    {
        count_keys(&self.cache)
    }
}

/// To use a key changes the order of the keys alone.
pub proof fn lemma_used(keys: Seq<ItemKey>, key: ItemKey)
    requires
        keys.no_duplicates(),
    ensures
        used(keys, key).no_duplicates(),
        used(keys, key).len() == keys.len(),
        forall|k: ItemKey| #[trigger] used(keys, key).contains(k) <==> keys.contains(k),
{
    if keys.contains(key) {
        let i = keys.index_of(key);
        let rest = keys.remove(i);
        let all = seq![key] + rest;
        assert forall|k: ItemKey| #[trigger] all.contains(k) <==> keys.contains(k) by {
            if keys.contains(k) {
                let j = choose|j: int| 0 <= j < keys.len() && keys[j] == k;
                if j < i {
                    assert(all[j + 1] == k);
                } else if j > i {
                    assert(all[j] == k);
                } else {
                    assert(all[0] == k);
                }
            }
            if all.contains(k) {
                let j = choose|j: int| 0 <= j < all.len() && all[j] == k;
                if j == 0 {
                    assert(keys[i] == k);
                } else if j - 1 < i {
                    assert(keys[j - 1] == k);
                } else {
                    assert(keys[j] == k);
                }
            }
        }
        assert forall|a: int, b: int|
            0 <= a < all.len() && 0 <= b < all.len() && a != b implies all[a] != all[b] by {
            let a0 = if a == 0 { i } else if a - 1 < i { a - 1 } else { a };
            let b0 = if b == 0 { i } else if b - 1 < i { b - 1 } else { b };
            assert(all[a] == keys[a0]);
            assert(all[b] == keys[b0]);
        }
    }
}

/// The keys once several are put in one after the other.
pub open spec fn added_all(keys: Seq<ItemKey>, others: Seq<ItemKey>, limit: nat) -> Seq<ItemKey>
    decreases others.len(),
{
    if others.len() == 0 {
        keys
    } else {
        added(added_all(keys, others.drop_last(), limit), others.last(), limit)
    }
}

/// A header that was remembered is found as long as fewer others have been
/// remembered after it than there is room for.
pub proof fn law_remembered_is_found(
    keys: Seq<ItemKey>,
    key: ItemKey,
    others: Seq<ItemKey>,
    limit: nat,
)
    requires
        keys.no_duplicates(),
        keys.len() <= limit,
        others.len() < limit,
    ensures
        added_all(added(keys, key, limit), others, limit).contains(key),
{
    lemma_added(keys, key, limit);
    assert(added(keys, key, limit)[0] == key);
    let _ = lemma_position(added(keys, key, limit), key, others, limit);
}

/// To put in a key keeps the keys apart, and no more of them than there is room
/// for.
proof fn lemma_added(keys: Seq<ItemKey>, key: ItemKey, limit: nat)
    requires
        keys.no_duplicates(),
        keys.len() <= limit,
        limit > 0,
    ensures
        added(keys, key, limit).no_duplicates(),
        0 < added(keys, key, limit).len() <= limit,
        added(keys, key, limit)[0] == key,
{
    lemma_used(keys, key);
    if !keys.contains(key) {
        assert(forall|i: int| 0 <= i < keys.len() ==> keys[i] != key);
    }
}

/// Where a key stands that was first before others were put in.
proof fn lemma_position(keys: Seq<ItemKey>, key: ItemKey, others: Seq<ItemKey>, limit: nat) -> (p:
    int)
    requires
        keys.no_duplicates(),
        0 < keys.len() <= limit,
        keys[0] == key,
        others.len() < limit,
    ensures
        added_all(keys, others, limit).no_duplicates(),
        added_all(keys, others, limit).len() <= limit,
        0 <= p <= others.len(),
        p < added_all(keys, others, limit).len(),
        added_all(keys, others, limit)[p] == key,
    decreases others.len(),
{
    if others.len() == 0 {
        0
    } else {
        let p = lemma_position(keys, key, others.drop_last(), limit);
        let was = added_all(keys, others.drop_last(), limit);
        let o = others.last();
        lemma_added(was, o, limit);
        let now = added(was, o, limit);
        if was.contains(o) {
            let j = was.index_of(o);
            if j == p {
                assert(now[0] == key);
                0
            } else if j < p {
                assert(now[p] == key);
                p
            } else {
                assert(now[p + 1] == key);
                p + 1
            }
        } else {
            assert(now[p + 1] == key);
            p + 1
        }
    }
}

} // verus!
