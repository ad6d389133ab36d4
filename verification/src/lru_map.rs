//! The bounded map that keeps the sessions, provided by the `lru` crate.
//!
//! Nothing in this file is proved: each function states what the crate's
//! source shows of the method it calls, over [`lru_entries`] and
//! [`lru_cap`]. An `LruCache` never holds a key twice nor more entries than
//! its bound; the functions that change one ask for that of the entries
//! before, and what they say of the entries after is proved to keep it.

use crate::registry::{entries_wf, holds, index_of, inserted, promoted, removed, slot_view, Entries};
use crate::service::{fresh_session, Service};
use crate::session::Session;
use lru::LruCache;
use std::num::NonZeroUsize;
use vstd::prelude::*;

verus! {

/// `lru::LruCache`, of which nothing is seen but through the functions
/// below.
#[verifier::external_type_specification]
#[verifier::external_body]
#[verifier::reject_recursive_types(K)]
#[verifier::reject_recursive_types(V)]
#[verifier::reject_recursive_types(S)]
pub struct ExLruCache<K, V, S>(LruCache<K, V, S>);

/// `lru::DefaultHasher`, the hasher of a cache that is made without one.
#[verifier::external_type_specification]
#[verifier::external_body]
pub struct ExDefaultHasher(lru::DefaultHasher);

/// The largest bound that a cache can be made with. `LruCache::new` lays
/// out a table for as many entries as the bound, and panics where the size
/// of that table exceeds the address space.
pub const MAX_CAP: usize = usize::MAX / 128;

/// The entries of a cache, from the most recently used to the least.
pub uninterp spec fn lru_entries(cache: LruCache<String, Option<Session>>) -> Entries;

/// The most entries that a cache holds.
pub uninterp spec fn lru_cap(cache: LruCache<String, Option<Session>>) -> nat;

/// `LruCache::new`: an empty cache that holds up to `cap` entries. It sets
/// aside room for that many at once.
#[verifier::external_body]
pub(crate) fn lru_new(cap: usize) -> (cache: LruCache<String, Option<Session>>)
    requires
        0 < cap <= MAX_CAP,
    ensures
        lru_entries(cache) == Entries::empty(),
        lru_cap(cache) == cap,
{
    LruCache::new(NonZeroUsize::new(cap).unwrap())
}

/// `LruCache::unbounded`: an empty cache whose bound is the largest number.
#[verifier::external_body]
pub(crate) fn lru_unbounded() -> (cache: LruCache<String, Option<Session>>)
    ensures
        lru_entries(cache) == Entries::empty(),
        lru_cap(cache) == usize::MAX,
{
    LruCache::unbounded()
}

/// `LruCache::contains`: whether the key is held. The order stays.
#[verifier::external_body]
pub(crate) fn lru_contains(cache: &LruCache<String, Option<Session>>, key: &String) -> (found: bool)
    ensures
        found == holds(lru_entries(*cache), key@),
{
    cache.contains(key)
}

/// `LruCache::peek`: the slot of a key that is held; `None` for a key that
/// is not. The order stays.
#[verifier::external_body]
pub(crate) fn lru_peek<'a>(cache: &'a LruCache<String, Option<Session>>, key: &String) -> (found: Option<
    &'a Option<Session>,
>)
    requires
        entries_wf(lru_entries(*cache), lru_cap(*cache)),
    ensures
        match found {
            Some(slot) => holds(lru_entries(*cache), key@) && slot_view(*slot) == lru_entries(
                *cache,
            )[index_of(lru_entries(*cache), key@)].1,
            None => !holds(lru_entries(*cache), key@),
        },
{
    cache.peek(key)
}

/// `LruCache::get_mut`: the slot of a key that is held, which moves to the
/// front; the entries become what they were with the key in front and the
/// slot as the caller leaves it. `None`, and nothing changes, for a key
/// that is not held.
#[verifier::external_body]
pub(crate) fn lru_get_mut<'a>(cache: &'a mut LruCache<String, Option<Session>>, key: &String) -> (found:
    Option<&'a mut Option<Session>>)
    requires
        entries_wf(lru_entries(*old(cache)), lru_cap(*old(cache))),
    ensures
        lru_cap(*final(cache)) == lru_cap(*old(cache)),
        match found {
            Some(slot) => {
                &&& holds(lru_entries(*old(cache)), key@)
                &&& slot_view(*slot) == lru_entries(*old(cache))[index_of(
                    lru_entries(*old(cache)),
                    key@,
                )].1
                &&& lru_entries(*final(cache)) == promoted(
                    lru_entries(*old(cache)),
                    key@,
                    slot_view(*final(slot)),
                )
            },
            None => !holds(lru_entries(*old(cache)), key@) && lru_entries(*final(cache))
                == lru_entries(*old(cache)),
        },
{
    cache.get_mut(key)
}

/// `LruCache::get_or_insert_mut`: the slot of the key, which comes to the
/// front. For a key that was not held the slot is made with a session that
/// the service launches, and a full cache first loses its last entry.
#[verifier::external_body]
pub(crate) fn lru_get_or_insert_mut<'a>(
    cache: &'a mut LruCache<String, Option<Session>>,
    key: String,
    service: &Service,
) -> (slot: &'a mut Option<Session>)
    requires
        entries_wf(lru_entries(*old(cache)), lru_cap(*old(cache))),
    ensures
        lru_cap(*final(cache)) == lru_cap(*old(cache)),
        holds(lru_entries(*old(cache)), key@) ==> {
            &&& slot_view(*slot) == lru_entries(*old(cache))[index_of(
                lru_entries(*old(cache)),
                key@,
            )].1
            &&& lru_entries(*final(cache)) == promoted(
                lru_entries(*old(cache)),
                key@,
                slot_view(*final(slot)),
            )
        },
        !holds(lru_entries(*old(cache)), key@) ==> {
            &&& slot_view(*slot) == Some(fresh_session(service.model()))
            &&& lru_entries(*final(cache)) == inserted(
                lru_entries(*old(cache)),
                lru_cap(*old(cache)),
                key@,
                slot_view(*final(slot)),
            )
        },
{
    cache.get_or_insert_mut(key, || Some(service.launch()))
}

/// `LruCache::push`: puts the pair in front. A key that was held loses its
/// old slot, which is returned with the key; else a full cache loses its
/// last entry, whose key is returned with its slot.
#[verifier::external_body]
pub(crate) fn lru_push(
    cache: &mut LruCache<String, Option<Session>>,
    key: String,
    slot: Option<Session>,
) -> (out: Option<(String, Option<Session>)>)
    requires
        entries_wf(lru_entries(*old(cache)), lru_cap(*old(cache))),
    ensures
        lru_cap(*final(cache)) == lru_cap(*old(cache)),
        holds(lru_entries(*old(cache)), key@) ==> {
            &&& lru_entries(*final(cache)) == promoted(lru_entries(*old(cache)), key@, slot_view(slot))
            &&& out matches Some((k, s))
            &&& k@ == key@
            &&& slot_view(s) == lru_entries(*old(cache))[index_of(lru_entries(*old(cache)), key@)].1
        },
        !holds(lru_entries(*old(cache)), key@) ==> {
            &&& lru_entries(*final(cache)) == inserted(
                lru_entries(*old(cache)),
                lru_cap(*old(cache)),
                key@,
                slot_view(slot),
            )
            &&& (lru_entries(*old(cache)).len() < lru_cap(*old(cache)) ==> out is None)
            &&& (lru_entries(*old(cache)).len() == lru_cap(*old(cache)) ==> {
                &&& out matches Some((k, s))
                &&& (k@, slot_view(s)) == lru_entries(*old(cache)).last()
            })
        },
{
    cache.push(key, slot)
}

/// `LruCache::pop`: takes the key out and returns its slot; `None`, and
/// nothing changes, for a key that is not held.
#[verifier::external_body]
pub(crate) fn lru_pop(cache: &mut LruCache<String, Option<Session>>, key: &String) -> (out: Option<
    Option<Session>,
>)
    requires
        entries_wf(lru_entries(*old(cache)), lru_cap(*old(cache))),
    ensures
        lru_cap(*final(cache)) == lru_cap(*old(cache)),
        match out {
            Some(slot) => {
                &&& holds(lru_entries(*old(cache)), key@)
                &&& slot_view(slot) == lru_entries(*old(cache))[index_of(
                    lru_entries(*old(cache)),
                    key@,
                )].1
                &&& lru_entries(*final(cache)) == removed(lru_entries(*old(cache)), key@)
            },
            None => !holds(lru_entries(*old(cache)), key@) && lru_entries(*final(cache))
                == lru_entries(*old(cache)),
        },
{
    cache.pop(key)
}

} // verus!
