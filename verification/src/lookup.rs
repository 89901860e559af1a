//! Which providers provide a key, and which depend on it.

use vstd::prelude::*;
use bevy_platform::collections::HashMap;
use crate::collections::{provider_map, provider_map_get, provider_map_keys};
use crate::graph::{provider_views, Providers};
use crate::ids::{KeyId, ProviderId};
use crate::provider::{ProviderInfo, ProviderInfoView};
use crate::sets::{among, lemma_among_all, lemma_among_next};
use crate::tracker::SetupTracker;

verus! {

/// `at` is where `key` first stands in `keys`.
pub open spec fn is_first_index(keys: Seq<KeyId>, key: KeyId, at: int) -> bool {
    &&& 0 <= at < keys.len()
    &&& keys[at] == key
    &&& forall|j: int| 0 <= j < at ==> keys[j] != key
}

/// The keys that a provider provides, or those that it requires.
pub open spec fn keys_of(info: ProviderInfoView, provided: bool) -> Seq<KeyId> {
    if provided {
        info.provides
    } else {
        info.required
    }
}

/// `found` holds, for each provider that names `key` among the keys it
/// provides (or, with `provided` false, among the keys it requires), the
/// handle of the provider and the place where the key first stands there;
/// it holds each such provider once, and nothing else.
pub open spec fn lists_occurrences(
    found: Seq<(ProviderId, usize)>,
    providers: Providers,
    key: KeyId,
    provided: bool,
) -> bool {
    &&& forall|a: int, b: int| 0 <= a < b < found.len() ==> (#[trigger] found[a]).0 != (#[trigger] found[b]).0
    &&& forall|p: ProviderId, at: usize| #[trigger]
        found.contains((p, at)) <==> providers.dom().contains(p) && is_first_index(
            keys_of(providers[p], provided),
            key,
            at as int,
        )
}

/// Where `key` first stands in `keys`, if it does.
pub fn first_index(keys: &[KeyId], key: KeyId) -> (at: Option<usize>)
    ensures
        at matches Some(i) ==> is_first_index(keys@, key, i as int),
        at is None ==> !keys@.contains(key),
{
    let mut i: usize = 0;
    while i < keys.len()
        invariant
            i <= keys.len(),
            forall|j: int| 0 <= j < i ==> keys@[j] != key,
        decreases keys.len() - i,
    {
        if keys[i] == key {
            return Some(i);
        }
        i += 1;
    }
    None
}

/// The occurrences of `key` in the key lists of the providers.
fn occurrences(known: &HashMap<ProviderId, ProviderInfo>, key: KeyId, provided: bool) -> (found: Vec<
    (ProviderId, usize),
>)
    ensures
        lists_occurrences(found@, provider_views(provider_map(*known)), key, provided),
{
    let ghost views = provider_views(provider_map(*known));
    let ids = provider_map_keys(known);
    let mut found: Vec<(ProviderId, usize)> = Vec::new();
    let mut t: usize = 0;
    while t < ids.len()
        invariant
            t <= ids.len(),
            views == provider_views(provider_map(*known)),
            ids@.no_duplicates(),
            ids@.to_set() == provider_map(*known).dom(),
            forall|a: int| 0 <= a < found.len() ==> among(ids@, t as int, (#[trigger] found@[a]).0),
            forall|a: int, b: int| 0 <= a < b < found.len() ==> (#[trigger] found@[a]).0 != (#[trigger] found@[b]).0,
            forall|p: ProviderId, at: usize| #[trigger]
                found@.contains((p, at)) <==> among(ids@, t as int, p) && is_first_index(
                    keys_of(views[p], provided),
                    key,
                    at as int,
                ),
        decreases ids.len() - t,
    {
        let id = ids[t];
        let ghost before = found@;
        proof {
            assert(ids@.to_set().contains(ids@[t as int]));
            assert(!among(ids@, t as int, id)) by {
                if among(ids@, t as int, id) {
                    let u = choose|u: int| 0 <= u < t && ids@[u] == id;
                    assert(ids@[u] == ids@[t as int]);
                }
            }
            assert forall|p: ProviderId| among(ids@, t + 1, p) <==> among(ids@, t as int, p) || p == id by {
                lemma_among_next(ids@, t as int, p);
            }
        }
        let mut place: Option<usize> = None;
        match provider_map_get(known, id) {
            Some(info) => {
                assert(views[id] == info@);
                if provided {
                    place = first_index(info.provides(), key);
                } else {
                    place = first_index(info.required(), key);
                }
            },
            None => {},
        }
        match place {
            Some(at) => {
                found.push((id, at));
                proof {
                    assert forall|p: ProviderId, i: usize| #[trigger]
                        found@.contains((p, i)) <==> among(ids@, t + 1, p) && is_first_index(
                            keys_of(views[p], provided),
                            key,
                            i as int,
                        ) by {
                        if before.contains((p, i)) {
                            let a = choose|a: int| 0 <= a < before.len() && before[a] == (p, i);
                            assert(found@[a] == (p, i));
                        }
                        if p == id && i == at {
                            assert(found@[before.len() as int] == (p, i));
                        }
                        if found@.contains((p, i)) {
                            let a = choose|a: int| 0 <= a < found@.len() && found@[a] == (p, i);
                            if a < before.len() {
                                assert(before[a] == (p, i));
                                assert(before.contains((p, i)));
                            }
                        }
                    }
                    assert forall|a: int, b: int| 0 <= a < b < found.len() implies (#[trigger] found@[a]).0 != (
                    #[trigger] found@[b]).0 by {
                        if b == before.len() {
                            assert(found@[a] == before[a]);
                            assert(among(ids@, t as int, before[a].0));
                        } else {
                            assert(found@[a] == before[a]);
                            assert(found@[b] == before[b]);
                        }
                    }
                    assert forall|a: int| 0 <= a < found.len() implies among(
                        ids@,
                        t + 1,
                        (#[trigger] found@[a]).0,
                    ) by {
                        if a < before.len() {
                            assert(found@[a] == before[a]);
                            assert(among(ids@, t as int, before[a].0));
                        }
                    }
                }
            },
            None => {
                proof {
                    assert forall|i: usize| !is_first_index(keys_of(views[id], provided), key, i as int) by {
                        if is_first_index(keys_of(views[id], provided), key, i as int) {
                            assert(keys_of(views[id], provided).contains(key));
                        }
                    }
                }
            },
        }
        t += 1;
    }
    proof {
        assert forall|p: ProviderId| among(ids@, t as int, p) <==> views.dom().contains(p) by {
            lemma_among_all(ids@, p);
            assert(ids@.to_set().contains(p) <==> ids@.contains(p));
        }
    }
    found
}

impl SetupTracker {
    /// The providers that provide `key`, each with the place of the key
    /// among the keys that the provider provides.
    pub fn providers_of(&self, key: KeyId) -> (found: Vec<(ProviderId, usize)>)
        ensures
            lists_occurrences(found@, self@.providers, key, true),
    {
        occurrences(self.providers(), key, true)
    }

    /// The providers that require `key`, each with the place of the key
    /// among the keys that the provider requires.
    pub fn dependants_of(&self, key: KeyId) -> (found: Vec<(ProviderId, usize)>)
        ensures
            lists_occurrences(found@, self@.providers, key, false),
    {
        occurrences(self.providers(), key, false)
    }
}

} // verus!
