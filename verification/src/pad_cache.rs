use lru::LruCache;
use vstd::prelude::*;

verus! {

#[verifier::external_type_specification]
#[verifier::external_body]
#[verifier::reject_recursive_types(K)]
#[verifier::reject_recursive_types(V)]
#[verifier::reject_recursive_types(S)]
pub struct ExLruCache<K, V, S>(lru::LruCache<K, V, S>);

#[verifier::external_type_specification]
#[verifier::external_body]
pub struct ExDefaultHasher(lru::DefaultHasher);

/// What a cache holds: numbers and their blocks, those used last in front.
pub uninterp spec fn cache_items(c: LruCache<usize, [u8; 16]>) -> Seq<(usize, [u8; 16])>;

/// How many blocks a cache can hold.
pub uninterp spec fn cache_cap(c: LruCache<usize, [u8; 16]>) -> nat;

/// Whether there is a block for the number.
pub open spec fn has_key(s: Seq<(usize, [u8; 16])>, k: usize) -> bool {
    exists|i: int| 0 <= i < s.len() && (#[trigger] s[i]).0 == k
}

/// Whether an item is not that of the number.
pub open spec fn other_key(k: usize) -> spec_fn((usize, [u8; 16])) -> bool {
    |e: (usize, [u8; 16])| e.0 != k
}

/// The items but for that of the number.
pub open spec fn without_key(s: Seq<(usize, [u8; 16])>, k: usize) -> Seq<(usize, [u8; 16])> {
    s.filter(other_key(k))
}

/// Calls `lru::LruCache::new`. What is claimed of it: the cache is empty and holds up to `cap`
/// items.
#[verifier::external_body]
pub(crate) fn new_cache(cap: usize) -> (c: LruCache<usize, [u8; 16]>)
    requires
        0 < cap,
    ensures
        cache_items(c) == Seq::<(usize, [u8; 16])>::empty(),
        cache_cap(c) == cap,
{
    LruCache::new(std::num::NonZeroUsize::new(cap).unwrap())
}

/// Calls `lru::LruCache::get`. What is claimed of it: it gives the value of the key where there is
/// one, and moves that item to the front.
#[verifier::external_body]
pub(crate) fn get_cached(c: &mut LruCache<usize, [u8; 16]>, k: usize) -> (r: Option<[u8; 16]>)
    ensures
        cache_cap(*final(c)) == cache_cap(*old(c)),
        match r {
            Some(v) => cache_items(*old(c)).contains((k, v)) && cache_items(*final(c)) == seq![
                (k, v),
            ] + without_key(cache_items(*old(c)), k),
            None => !has_key(cache_items(*old(c)), k) && cache_items(*final(c)) == cache_items(
                *old(c),
            ),
        },
{
    c.get(&k).copied()
}

/// Calls `lru::LruCache::put`. What is claimed of it: the item is put in front, in place of the one
/// with the same key; where there was none and the cache is full, the last item leaves.
#[verifier::external_body]
pub(crate) fn put_cached(c: &mut LruCache<usize, [u8; 16]>, k: usize, v: [u8; 16])
    ensures
        cache_cap(*final(c)) == cache_cap(*old(c)),
        cache_items(*final(c)) == seq![(k, v)] + if has_key(cache_items(*old(c)), k) {
            without_key(cache_items(*old(c)), k)
        } else if cache_items(*old(c)).len() == cache_cap(*old(c)) {
            cache_items(*old(c)).drop_last()
        } else {
            cache_items(*old(c))
        },
{
    c.put(k, v);
}

} // verus!
