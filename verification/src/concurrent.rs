//! The concurrent collections that a build shares between tasks: the set of
//! visited module identifiers and the per-module cache of resolved specifiers.
//!
//! Both are `dashmap` collections. Verus cannot look inside them, so what they
//! hold is named by two uninterpreted functions, and each operation used by the
//! build is wrapped in a function whose contract is taken on trust from the
//! collection's documented behaviour. Every wrapper that changes a collection
//! takes it by `&mut`: the contracts describe a collection that nobody else is
//! changing at the same moment.

use crate::{ResolvedURI, ResolvedView};
use dashmap::{DashMap, DashSet};
use std::collections::hash_map::RandomState;
use vstd::prelude::*;

verus! {

/// `dashmap::DashSet`, taken as it is: nothing is known of what is inside
/// but through [`visited_uris`].
#[verifier::external_type_specification]
#[verifier::external_body]
#[verifier::reject_recursive_types(K)]
#[verifier::reject_recursive_types(S)]
pub struct ExDashSet<K, S>(DashSet<K, S>);

/// `dashmap::DashMap`, taken as it is: nothing is known of what is inside
/// but through [`cached_ids`].
#[verifier::external_type_specification]
#[verifier::external_body]
#[verifier::reject_recursive_types(K)]
#[verifier::reject_recursive_types(V)]
#[verifier::reject_recursive_types(S)]
pub struct ExDashMap<K, V, S>(DashMap<K, V, S>);

/// The keys that a set of module identifiers holds, each by its text.
pub uninterp spec fn visited_uris(set: DashSet<String, RandomState>) -> Set<Seq<char>>;

/// The entries that a cache of resolved specifiers holds: from a specifier's
/// text to what it resolved to.
pub uninterp spec fn cached_ids(cache: DashMap<String, ResolvedURI, RandomState>) -> Map<
    Seq<char>,
    ResolvedView,
>;

/// `DashSet::new`: a set that holds no key.
#[verifier::external_body]
pub(crate) fn visited_new() -> (set: DashSet<String, RandomState>)
    ensures
        visited_uris(set) == Set::<Seq<char>>::empty(),
{
    DashSet::new()
}

/// `DashSet::insert`: afterwards the set holds the key beside what it held
/// before; the result tells whether the key was absent before.
#[verifier::external_body]
pub(crate) fn visited_insert(set: &mut DashSet<String, RandomState>, uri: String) -> (fresh: bool)
    ensures
        visited_uris(*final(set)) == visited_uris(*old(set)).insert(uri@),
        fresh == !visited_uris(*old(set)).contains(uri@),
{
    set.insert(uri)
}

/// `DashSet::contains`: whether the set holds the key.
#[verifier::external_body]
pub(crate) fn visited_contains(set: &DashSet<String, RandomState>, uri: &String) -> (found: bool)
    ensures
        found == visited_uris(*set).contains(uri@),
{
    set.contains(uri)
}

/// `DashSet::remove`: afterwards the set holds what it held before without
/// the key; the result is the key that was taken out, if it was present.
#[verifier::external_body]
pub(crate) fn visited_remove(set: &mut DashSet<String, RandomState>, uri: &String) -> (removed:
    Option<String>)
    ensures
        visited_uris(*final(set)) == visited_uris(*old(set)).remove(uri@),
        removed.is_some() == visited_uris(*old(set)).contains(uri@),
        removed matches Some(key) ==> key@ == uri@,
{
    set.remove(uri)
}

/// `DashSet::len`: the number of keys that the set holds.
#[verifier::external_body]
pub(crate) fn visited_len(set: &DashSet<String, RandomState>) -> (count: usize)
    ensures
        count == visited_uris(*set).len(),
{
    set.len()
}

/// `DashMap::new`: a map that holds no entry.
#[verifier::external_body]
pub(crate) fn cache_new() -> (cache: DashMap<String, ResolvedURI, RandomState>)
    ensures
        cached_ids(cache).dom() == Set::<Seq<char>>::empty(),
{
    DashMap::new()
}

/// `DashMap::get`: a copy of the value stored under the key, if there is
/// one.
#[verifier::external_body]
pub(crate) fn cache_get(cache: &DashMap<String, ResolvedURI, RandomState>, specifier: &String) -> (hit:
    Option<ResolvedURI>)
    ensures
        hit.is_some() == cached_ids(*cache).contains_key(specifier@),
        hit matches Some(resolved) ==> resolved@ == cached_ids(*cache)[specifier@],
{
    cache.get(specifier).map(|entry| entry.value().clone())
}

/// `DashMap::insert`: afterwards the map holds the value under the key, and
/// under every other key what it held before.
#[verifier::external_body]
pub(crate) fn cache_insert(
    cache: &mut DashMap<String, ResolvedURI, RandomState>,
    specifier: String,
    resolved: ResolvedURI,
)
    ensures
        cached_ids(*final(cache)) == cached_ids(*old(cache)).insert(specifier@, resolved@),
{
    cache.insert(specifier, resolved);
}

} // verus!
