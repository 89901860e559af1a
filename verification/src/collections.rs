//! The hash collections of `bevy_platform`, as this library uses them.
//!
//! Verus does not read the collections' code. Each function here makes one
//! call into `bevy_platform::collections` and states what that call does to
//! the contents of the collection; the statements are taken on trust. The
//! order in which a collection is walked is not stated anywhere: the
//! functions that hand the items out promise every item once, no more.

use vstd::prelude::*;
use bevy_platform::collections::{HashMap, HashSet};
use bevy_platform::hash::FixedHasher;
use crate::ids::{KeyId, ProgressCheckerId, ProviderId};
use crate::provider::ProviderInfo;

verus! {

/// `bevy_platform::hash::FixedHasher`, the hasher of every collection here.
#[verifier::external_type_specification]
#[verifier::external_body]
pub struct ExFixedHasher(FixedHasher);

/// `bevy_platform::collections::HashMap`.
#[verifier::external_type_specification]
#[verifier::external_body]
#[verifier::reject_recursive_types(K)]
#[verifier::reject_recursive_types(V)]
#[verifier::reject_recursive_types(S)]
pub struct ExHashMap<K, V, S>(HashMap<K, V, S>);

/// `bevy_platform::collections::HashSet`.
#[verifier::external_type_specification]
#[verifier::external_body]
#[verifier::reject_recursive_types(T)]
#[verifier::reject_recursive_types(S)]
pub struct ExHashSet<T, S>(HashSet<T, S>);

/// The integers that a set holds.
pub uninterp spec fn key_set(s: HashSet<u64>) -> Set<u64>;

/// The progress checker that a map of entries holds for each key.
pub uninterp spec fn checker_map(m: HashMap<KeyId, ProgressCheckerId>) -> Map<KeyId, ProgressCheckerId>;

/// The provider metadata that a map of providers holds for each handle.
pub uninterp spec fn provider_map(m: HashMap<ProviderId, ProviderInfo>) -> Map<ProviderId, ProviderInfo>;

/// The list of integers that a map of lists holds for each key.
pub uninterp spec fn list_map(m: HashMap<u64, Vec<u64>>) -> Map<u64, Seq<u64>>;

/// `HashSet::new`: a set that holds nothing.
#[verifier::external_body]
pub(crate) fn set_new() -> (s: HashSet<u64>)
    ensures
        key_set(s) == Set::<u64>::empty(),
{
    HashSet::new()
}

/// `HashSet::insert`: the set then holds `k` too; the result says whether
/// `k` was new to it.
#[verifier::external_body]
pub(crate) fn set_insert(s: &mut HashSet<u64>, k: u64) -> (fresh: bool)
    ensures
        key_set(*final(s)) == key_set(*old(s)).insert(k),
        fresh == !key_set(*old(s)).contains(k),
{
    s.insert(k)
}

/// `HashSet::remove`: the set then holds `k` no more; the result says
/// whether it did.
#[verifier::external_body]
pub(crate) fn set_remove(s: &mut HashSet<u64>, k: u64) -> (found: bool)
    ensures
        key_set(*final(s)) == key_set(*old(s)).remove(k),
        found == key_set(*old(s)).contains(k),
{
    s.remove(&k)
}

/// `HashSet::contains`.
#[verifier::external_body]
pub(crate) fn set_contains(s: &HashSet<u64>, k: u64) -> (found: bool)
    ensures
        found == key_set(*s).contains(k),
{
    s.contains(&k)
}

/// `HashSet::is_empty`.
#[verifier::external_body]
pub(crate) fn set_is_empty(s: &HashSet<u64>) -> (empty: bool)
    ensures
        empty == (key_set(*s) == Set::<u64>::empty()),
{
    s.is_empty()
}

/// `HashSet::iter`: every item of the set once, in the order of the walk.
#[verifier::external_body]
pub(crate) fn set_items(s: &HashSet<u64>) -> (items: Vec<u64>)
    ensures
        items@.no_duplicates(),
        items@.to_set() == key_set(*s),
{
    s.iter().copied().collect()
}

/// `HashMap::new`, for a map of entries.
#[verifier::external_body]
pub(crate) fn checker_map_new() -> (m: HashMap<KeyId, ProgressCheckerId>)
    ensures
        (checker_map(m) == Map::<KeyId, ProgressCheckerId>::empty()),
{
    HashMap::new()
}

/// `HashMap::contains_key`, on a map of entries.
#[verifier::external_body]
pub(crate) fn checker_map_contains(m: &HashMap<KeyId, ProgressCheckerId>, k: KeyId) -> (found: bool)
    ensures
        found == checker_map(*m).dom().contains(k),
{
    m.contains_key(&k)
}

/// `HashMap::get`, on a map of entries.
#[verifier::external_body]
pub(crate) fn checker_map_get(m: &HashMap<KeyId, ProgressCheckerId>, k: KeyId) -> (checker: Option<ProgressCheckerId>)
    ensures
        checker == (if checker_map(*m).dom().contains(k) {
            Some(checker_map(*m)[k])
        } else {
            None
        }),
{
    m.get(&k).copied()
}

/// `HashMap::insert`, on a map of entries: the map then holds `v` for `k`,
/// whatever it held for `k` before. The call does not unwind: hashing and
/// comparing integers cannot panic.
#[verifier::external_body]
pub(crate) fn checker_map_insert(m: &mut HashMap<KeyId, ProgressCheckerId>, k: KeyId, v: ProgressCheckerId)
    ensures
        (checker_map(*final(m)) == checker_map(*old(m)).insert(k, v)),
    no_unwind
{
    m.insert(k, v);
}

/// `HashMap::keys`, on a map of entries: every key once, in the order of
/// the walk.
#[verifier::external_body]
pub(crate) fn checker_map_keys(m: &HashMap<KeyId, ProgressCheckerId>) -> (keys: Vec<KeyId>)
    ensures
        keys@.no_duplicates(),
        keys@.to_set() == checker_map(*m).dom(),
{
    m.keys().copied().collect()
}

/// `HashMap::new`, for a map of providers.
#[verifier::external_body]
pub(crate) fn provider_map_new() -> (m: HashMap<ProviderId, ProviderInfo>)
    ensures
        (provider_map(m) == Map::<ProviderId, ProviderInfo>::empty()),
{
    HashMap::new()
}

/// `HashMap::get`, on a map of providers.
#[verifier::external_body]
pub(crate) fn provider_map_get(m: &HashMap<ProviderId, ProviderInfo>, k: ProviderId) -> (info: Option<&ProviderInfo>)
    ensures
        info == (if provider_map(*m).dom().contains(k) {
            Some(&provider_map(*m)[k])
        } else {
            None
        }),
{
    m.get(&k)
}

/// `HashMap::insert`, on a map of providers: the map then holds `v` for
/// `k`, whatever it held for `k` before. The call does not unwind: hashing
/// and comparing integers cannot panic.
#[verifier::external_body]
pub(crate) fn provider_map_insert(m: &mut HashMap<ProviderId, ProviderInfo>, k: ProviderId, v: ProviderInfo)
    ensures
        (provider_map(*final(m)) == provider_map(*old(m)).insert(k, v)),
    no_unwind
{
    m.insert(k, v);
}

/// `HashMap::keys`, on a map of providers: every handle once, in the order
/// of the walk.
#[verifier::external_body]
pub(crate) fn provider_map_keys(m: &HashMap<ProviderId, ProviderInfo>) -> (keys: Vec<ProviderId>)
    ensures
        keys@.no_duplicates(),
        keys@.to_set() == provider_map(*m).dom(),
{
    m.keys().copied().collect()
}

/// `HashMap::new`, for a map of lists.
#[verifier::external_body]
pub(crate) fn list_map_new() -> (m: HashMap<u64, Vec<u64>>)
    ensures
        (list_map(m) == Map::<u64, Seq<u64>>::empty()),
{
    HashMap::new()
}

/// `HashMap::get`, on a map of lists.
#[verifier::external_body]
pub(crate) fn list_map_get(m: &HashMap<u64, Vec<u64>>, k: u64) -> (list: Option<&Vec<u64>>)
    ensures
        list.is_some() == list_map(*m).dom().contains(k),
        list.is_some() ==> list.unwrap()@ == list_map(*m)[k],
{
    m.get(&k)
}

/// `HashMap::entry` and `Entry::or_default`, on a map of lists: the list
/// held for `k`, or an empty list put there if `k` had none. What the
/// caller leaves in that list is what the map then holds for `k`.
#[verifier::external_body]
pub(crate) fn list_map_entry(m: &mut HashMap<u64, Vec<u64>>, k: u64) -> (list: &mut Vec<u64>)
    ensures
        list@ == (if list_map(*old(m)).dom().contains(k) {
            list_map(*old(m))[k]
        } else {
            Seq::<u64>::empty()
        }),
        (list_map(*final(m)) == list_map(*old(m)).insert(k, final(list)@)),
{
    m.entry(k).or_default()
}

/// Whether a list has more than one item.
pub fn has_several(list: &Vec<u64>) -> (several: bool)
    ensures
        several == (list@.len() > 1),
{
    list.len() > 1
}

/// `HashMap::retain`, on a map of lists, with [`has_several`] as the test:
/// the keys whose list has more than one item stay, each with its list, and
/// the others leave.
#[verifier::external_body]
pub(crate) fn list_map_retain_several(m: &mut HashMap<u64, Vec<u64>>)
    ensures
        forall|k: u64| #[trigger]
            list_map(*final(m)).dom().contains(k) <==> list_map(*old(m)).dom().contains(k) && list_map(
                *old(m),
            )[k].len() > 1,
        forall|k: u64| #[trigger]
            list_map(*final(m)).dom().contains(k) ==> list_map(*final(m))[k] == list_map(*old(m))[k],
{
    m.retain(|_, list| has_several(list));
}

/// `HashMap::is_empty`, on a map of lists.
#[verifier::external_body]
pub(crate) fn list_map_is_empty(m: &HashMap<u64, Vec<u64>>) -> (empty: bool)
    ensures
        empty == (list_map(*m).dom() == Set::<u64>::empty()),
{
    m.is_empty()
}

} // verus!
